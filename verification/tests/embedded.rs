use bytes::Bytes;
use scale_kv::btree_meta::{BtreeMeta, BTREE_META_PAGE_ID};
use scale_kv::common::{Error, ErrorCategory, IoErrorKind, KEY_SIZE, PAGE_SIZE, VALUE_SIZE};
use scale_kv::compute_sequencer::{
    check_reachable, clamp_quorum, quorum_lsn, request_seed, seed_from, tally, DispatchTurn,
    NodeReply, SequencerState,
};
use scale_kv::embedded::boot::{
    fetch_step, next_backoff_ms, next_scan_start, positive_setting, FetchReply, FetchStep,
};
use scale_kv::embedded::commit::{check_page_sizes, CommitStep};
use scale_kv::embedded::gc::plan_gc;
use scale_kv::embedded::inprocess::{InProcessPageStore, InProcessSequencer};
use scale_kv::embedded::page_map::list_pages;
use scale_kv::embedded::registry::{TxnRegistry, WaitStep};
use scale_kv::embedded::scan::ScanStep;
use scale_kv::embedded::sequencer::Sequencer;
use scale_kv::embedded::txn::{EmbeddedCompute, EmbeddedTxn, ReadStep};
use scale_kv::embedded::write::{check_key, check_row};
use scale_kv::meta_page::{MetaPage, META_PAGE_ID};
use scale_kv::page_bptree::provider::AsyncPageProvider;

const SECOND: u128 = 1_000_000_000;

fn fixed_key(seed: u8) -> Vec<u8> {
    let mut key = vec![0u8; KEY_SIZE];
    key[0] = seed;
    key
}

fn fixed_value(seed: u8) -> Vec<u8> {
    vec![seed; VALUE_SIZE]
}

fn test_key(n: u64) -> Vec<u8> {
    let mut k = vec![0u8; KEY_SIZE];
    k[..8].copy_from_slice(&n.to_be_bytes());
    k
}

fn test_value(b: u8) -> Vec<u8> {
    vec![b; VALUE_SIZE]
}

/// An engine over pages in this process.
struct Engine {
    compute: EmbeddedCompute,
    seq: Sequencer,
    store: InProcessPageStore,
}

impl Engine {
    fn start() -> Engine {
        let mut seq = Sequencer::InProcess(InProcessSequencer::with_random(1));
        let txn_id = seq.allocate_request_id();
        let (compute, tx) = EmbeddedCompute::cold_start(seq.begin_ro(), txn_id);
        let mut e = Engine { compute, seq, store: InProcessPageStore::default() };
        e.commit(tx).unwrap();
        e
    }

    fn begin(&mut self, read_only: bool, timeout: Option<u128>) -> EmbeddedTxn {
        let txn_id = self.seq.allocate_request_id();
        let lsn = self.seq.begin_ro();
        EmbeddedTxn::begin(&mut self.compute, read_only, timeout, lsn, txn_id)
    }

    fn begin_rw(&mut self) -> EmbeddedTxn {
        self.begin(false, Some(10 * SECOND))
    }

    fn begin_ro(&mut self) -> EmbeddedTxn {
        self.begin(true, Some(10 * SECOND))
    }

    fn commit(&mut self, mut tx: EmbeddedTxn) -> Result<u64, Error> {
        let step = tx.prepare_commit(&mut self.compute, &mut self.seq, 0)?;
        let lsn = match step {
            CommitStep::Done(lsn) => lsn,
            CommitStep::Write(plan) => {
                check_page_sizes(&plan.pages)?;
                match &mut self.seq {
                    Sequencer::InProcess(s) => {
                        s.commit_pages_reserved(&mut self.store, plan.end_lsn, &plan.pages);
                    }
                    Sequencer::Network(_) => panic!("no nodes here"),
                }
                self.compute.finish_commit(&plan);
                plan.end_lsn
            }
        };
        tx.release(&mut self.compute);
        Ok(lsn)
    }

    fn put(&mut self, key: &[u8], value: &[u8]) {
        let mut tx = self.begin_rw();
        tx.put(&mut self.compute, 0, key, value).unwrap();
        self.commit(tx).unwrap();
    }

    fn delete(&mut self, key: &[u8]) {
        let mut tx = self.begin_rw();
        tx.delete(&mut self.compute, 0, key).unwrap();
        self.commit(tx).unwrap();
    }

    fn read(&mut self, tx: &mut EmbeddedTxn, key: &[u8]) -> Option<Vec<u8>> {
        match tx.try_get(&self.compute, 0, key).unwrap() {
            ReadStep::Done(v) => v,
            ReadStep::Wait(id) => panic!("waits for {id}"),
        }
    }

    fn get(&mut self, key: &[u8]) -> Option<Vec<u8>> {
        let mut tx = self.begin_ro();
        let v = self.read(&mut tx, key);
        tx.release(&mut self.compute);
        v
    }

    fn scan(&mut self, tx: &mut EmbeddedTxn, a: &[u8], b: &[u8], limit: usize) -> Vec<(Vec<u8>, Vec<u8>)> {
        let keys = tx.start_scan(&self.compute, 0, a, b, limit).unwrap();
        let mut out = Vec::new();
        match tx.scan_step(&self.compute, 0, &keys, 0, limit, &mut out).unwrap() {
            ScanStep::Done => {}
            ScanStep::Wait { .. } => panic!("no transaction is open"),
        }
        let mut count: usize = 0;
        assert!(matches!(
            tx.count_step(&self.compute, 0, &keys, 0, limit, &mut count),
            Ok(ScanStep::Done)
        ));
        assert_eq!(count, out.len());
        out
    }

    fn gc(&mut self, budget: usize) -> usize {
        let durable = self.seq.durable_lsn();
        let gc_lsn = self.compute.gc_lsn(durable);
        let rows = self.compute.tree.range(&[0u8; KEY_SIZE], &[255u8; KEY_SIZE]);
        let plan = plan_gc(&rows, gc_lsn, budget);
        let scanned = plan.scanned;
        let mut tx = self.begin_rw();
        tx.apply_gc(&mut self.compute, plan).unwrap();
        let mut meta = MetaPage::decode(&self.compute.page_cache[&META_PAGE_ID]).unwrap();
        let purged = self.compute.gc_purge_undo_segments(&mut meta, gc_lsn).unwrap();
        for (id, page) in purged {
            tx.write_page(&mut self.compute, id, page);
        }
        tx.write_page(&mut self.compute, META_PAGE_ID, meta.encode());
        self.commit(tx).unwrap();
        scanned
    }
}

#[test]
fn test_inprocess_sequencer_validation_and_commit() {
    let mut store = InProcessPageStore::default();
    let mut seq = InProcessSequencer::new();
    assert_eq!(seq.begin_ro(), 0);
    assert_eq!(seq.durable_lsn(), 0);

    let err = seq.reserve_txn_with_request_id(0, 1).unwrap_err();
    assert_eq!(err.category(), ErrorCategory::InvalidInput);

    let err = seq.reserve_txn_with_request_id(1, 0).unwrap_err();
    assert_eq!(err.category(), ErrorCategory::InvalidInput);

    let (request_id, start_lsn, end_lsn) = seq.reserve_txn(2).unwrap();
    assert!(request_id > 0);
    assert_eq!(start_lsn, 0);
    assert_eq!(end_lsn, 2);

    let page = Bytes::from(vec![7u8; PAGE_SIZE]);
    let out = seq.commit_pages_reserved(&mut store, end_lsn, &vec![(42, page.clone())]);
    assert_eq!(out, end_lsn);

    assert_eq!(seq.durable_lsn(), end_lsn);
    assert_eq!(store.get(42), Some(page));
}

#[test]
fn test_connect_inprocess_validation_and_visibility() {
    let mut e = Engine::start();
    assert!(!e.compute.page_cache.is_empty());

    let short_key = [1u8; 3];
    let mut ro = e.begin_ro();
    assert!(matches!(
        ro.try_get(&e.compute, 0, &short_key).unwrap_err(),
        Error::InvalidKeySize(_, _)
    ));

    let mut rw = e.begin_rw();
    assert!(matches!(
        rw.put(&mut e.compute, 0, &short_key, &fixed_value(1)).unwrap_err(),
        Error::InvalidKeySize(3, 16)
    ));
    let short_value = [2u8; 7];
    assert!(matches!(
        check_row(&short_key, &fixed_value(1)).unwrap_err(),
        Error::InvalidKeySize(3, 16)
    ));
    assert!(matches!(
        check_row(&fixed_key(1), &short_value).unwrap_err(),
        Error::InvalidValueSize(7, 1024)
    ));
    check_row(&fixed_key(1), &fixed_value(1)).unwrap();
    assert!(matches!(check_key(&short_key).unwrap_err(), Error::InvalidKeySize(3, 16)));
    check_key(&fixed_key(1)).unwrap();
    assert!(matches!(
        rw.start_scan(&e.compute, 0, &short_key, &fixed_key(1), 5).unwrap_err(),
        Error::InvalidKeySize(3, 16)
    ));
    assert!(rw.start_scan(&e.compute, 0, &fixed_key(0), &fixed_key(1), 0).unwrap().is_empty());

    let k1 = fixed_key(11);
    let k2 = fixed_key(12);
    let v1 = fixed_value(1);
    let v2 = fixed_value(2);
    e.put(&k1, &v1);
    e.put(&k2, &v2);

    let mut tx = e.begin_ro();
    assert!(matches!(tx.try_get_exists(&e.compute, 0, &k1), Ok(ReadStep::Done(true))));
    assert!(e.scan(&mut tx, &k1, &k2, 0).is_empty());

    e.delete(&k1);
    assert_eq!(e.get(&k1), None);
    let mut tx = e.begin_ro();
    assert!(matches!(tx.try_get_exists(&e.compute, 0, &k1), Ok(ReadStep::Done(false))));
    assert_eq!(e.scan(&mut tx, &k1, &k2, 10).len(), 1);
    assert_eq!(e.gc(0), 0);
}

#[test]
fn test_read_only_txn_write_is_rejected() {
    let mut e = Engine::start();

    let mut ro = e.begin(true, Some(SECOND));
    ro.write_page(&mut e.compute, 100, Bytes::from(vec![1u8; PAGE_SIZE]));
    let err = e.commit(ro).unwrap_err();
    assert!(matches!(err, Error::Io(_)));

    let mut ro2 = e.begin(true, Some(SECOND));
    let err = ro2.put(&mut e.compute, 0, &fixed_key(1), &fixed_value(1)).unwrap_err();
    assert!(matches!(err, Error::Io(_)));
    ro2.abort(&mut e.compute).unwrap();
}

#[test]
fn test_rw_txn_timeout_enforced() {
    let mut e = Engine::start();
    let mut tx = e.begin(false, Some(15_000_000));
    let err = tx.put(&mut e.compute, 40_000_000, &fixed_key(9), &fixed_value(9)).unwrap_err();
    assert!(matches!(err, Error::TxnTimeout));
    assert_eq!(err.category(), ErrorCategory::Timeout);
}

#[test]
fn test_page_redo_commit_and_recover_by_scan() {
    let mut e = Engine::start();
    let page_id = 42u64;
    let mut page = vec![0u8; PAGE_SIZE];
    page[0] = 7;
    let mut tx = e.begin_rw();
    tx.write_page(&mut e.compute, page_id, page.clone().into());
    let commit_lsn = e.commit(tx).unwrap();
    assert!(commit_lsn > 0);
    e.put(&fixed_key(3), &fixed_value(3));

    let pages = list_pages(&e.store.pages);
    let (compute2, fixed) = EmbeddedCompute::recover(&pages).unwrap().unwrap();
    assert!(fixed.is_none());
    assert_eq!(compute2.page_cache.get(&page_id).unwrap(), &page);
    let row = compute2.tree.get(&fixed_key(3)).unwrap();
    assert_eq!(row.value.as_ref(), fixed_value(3).as_slice());
    assert!(EmbeddedCompute::recover(&vec![]).unwrap().is_none());
}

#[test]
fn test_scan_range_snapshot_inclusive_and_limit() {
    let mut e = Engine::start();
    let k1 = test_key(1);
    let k2 = test_key(2);
    let k3 = test_key(3);
    let v1 = test_value(1);
    let v2 = test_value(2);
    let v2_new = test_value(9);
    let v3 = test_value(3);

    e.put(&k1, &v1);
    e.put(&k2, &v2);
    e.put(&k3, &v3);

    // Capture a read snapshot, then overwrite k2 to force undo-chain visibility.
    let mut ro = e.begin_ro();
    e.put(&k2, &v2_new);

    let snap = e.scan(&mut ro, &k1, &k2, 10);
    assert_eq!(snap.len(), 2);
    assert_eq!(snap[0], (k1.clone(), v1.clone()));
    assert_eq!(snap[1], (k2.clone(), v2.clone()));

    // End bound is inclusive.
    let mut now = e.begin_ro();
    let inclusive = e.scan(&mut now, &k2, &k2, 10);
    assert_eq!(inclusive, vec![(k2.clone(), v2_new.clone())]);

    // Limit applies to visible rows.
    let limited = e.scan(&mut now, &k1, &k3, 2);
    assert_eq!(limited.len(), 2);
    assert_eq!(limited[0], (k1, v1));
    assert_eq!(limited[1], (k2, v2_new));
}

#[test]
fn test_concurrent_rw_txns_on_different_keys_both_commit() {
    let mut e = Engine::start();
    let k1 = test_key(2001);
    let k2 = test_key(2002);
    let v1 = test_value(11);
    let v2 = test_value(22);
    let mut t1 = e.begin_rw();
    let mut t2 = e.begin_rw();
    t1.put(&mut e.compute, 0, &k1, &v1).unwrap();
    t2.put(&mut e.compute, 0, &k2, &v2).unwrap();
    e.commit(t1).unwrap();
    e.commit(t2).unwrap();

    assert_eq!(e.get(&k1), Some(v1));
    assert_eq!(e.get(&k2), Some(v2));
}

#[test]
fn test_concurrent_rw_txns_on_same_key_conflict_is_retryable() {
    let mut e = Engine::start();
    let key = test_key(3001);
    let winner = test_value(7);
    let loser = test_value(9);
    let mut writer = e.begin_rw();
    writer.put(&mut e.compute, 0, &key, &winner).unwrap();

    let mut tx2 = e.begin_rw();
    let err = tx2.put(&mut e.compute, 0, &key, &loser).unwrap_err();
    assert_eq!(err.category(), ErrorCategory::Backpressure);
    assert!(err.is_retryable());
    assert!(matches!(err, Error::Io(ref ioe) if ioe.kind() == IoErrorKind::WouldBlock));
    tx2.abort(&mut e.compute).unwrap();

    e.commit(writer).unwrap();

    assert_eq!(e.get(&key), Some(winner));
}

#[test]
fn test_timeout_reaper_aborts_dropped_rw_txn_and_resolves_intent() {
    let mut e = Engine::start();
    let key = test_key(42);
    let old_value = test_value(7);
    let new_value = test_value(9);
    e.put(&key, &old_value);

    let mut tx = e.begin(false, Some(100_000_000));
    let txn_id = tx.undo_txn_id.unwrap();
    let deadline = tx.registry_deadline(0, 10 * SECOND);
    e.compute.registry.register_pending_txn(txn_id, deadline);
    tx.put(&mut e.compute, 0, &key, &new_value).unwrap();
    e.compute.registry.record_txn_write(txn_id, &key);
    // The transaction is neither committed nor aborted.

    assert!(e.compute.registry.expired(50_000_000).is_empty());
    assert_eq!(e.compute.registry.expired(350_000_000), vec![txn_id]);
    let pending = e.compute.registry.remove_pending_txn(txn_id).unwrap();
    e.compute.resolve_txn_intents(txn_id, &pending.write_keys).unwrap();
    assert_eq!(e.get(&key), Some(old_value));
}

#[test]
fn test_reader_waits_on_foreign_intent_until_commit() {
    let mut e = Engine::start();
    let key = test_key(7);
    e.put(&key, &test_value(1));
    let mut writer = e.begin_rw();
    let id = writer.undo_txn_id.unwrap();
    writer.put(&mut e.compute, 0, &key, &test_value(2)).unwrap();

    // The reader's snapshot is not older than the intent: it waits.
    let mut reader = e.begin_ro();
    match reader.try_get(&e.compute, 0, &key).unwrap() {
        ReadStep::Wait(w) => assert_eq!(w, id),
        ReadStep::Done(_) => panic!("the row is not known yet"),
    }
    e.commit(writer).unwrap();
    assert_eq!(e.read(&mut reader, &key), Some(test_value(1)));
    assert_eq!(e.get(&key), Some(test_value(2)));
}

#[test]
fn test_reader_does_not_wait_when_intent_is_newer_than_snapshot() {
    let mut e = Engine::start();
    let key = test_key(8);
    e.put(&key, &test_value(1));
    let mut reader = e.begin_ro();
    e.put(&test_key(9), &test_value(9));
    let mut writer = e.begin_rw();
    writer.put(&mut e.compute, 0, &key, &test_value(2)).unwrap();
    assert_eq!(e.read(&mut reader, &key), Some(test_value(1)));
}

#[test]
fn test_reader_times_out_waiting_on_unresolved_foreign_intent() {
    let mut r = TxnRegistry::new();
    r.register_pending_txn(5, 100);
    assert!(matches!(r.wait_on_pending_txn(5, 90, 20), WaitStep::Until(120)));
    match r.wait_on_pending_txn(5, 120, 20) {
        WaitStep::TimedOut(Error::Io(ioe)) => assert_eq!(ioe.kind(), IoErrorKind::WouldBlock),
        _ => panic!("it lasts too long"),
    }
    assert!(matches!(r.wait_on_pending_txn(6, 90, 20), WaitStep::Gone));
}

#[test]
fn test_gc_respects_active_read_lsn() {
    let mut e = Engine::start();
    let key = fixed_key(b'k');
    let v1 = vec![b'a'; VALUE_SIZE];

    e.put(&key, &v1);

    // Hold a RO snapshot.
    let mut guard = e.begin_ro();

    // Delete after RO started.
    e.delete(&key);

    // GC should not physically remove key because gc_lsn is pinned by guard.
    e.gc(1024);
    assert!(e.compute.tree.get(&key).is_some());
    assert_eq!(e.read(&mut guard, &key), Some(v1));

    // Key should still be logically deleted for new readers, but mapping may remain.
    assert_eq!(e.get(&key), None);

    guard.release(&mut e.compute);

    // Now GC can proceed.
    e.gc(1024);
    assert_eq!(e.get(&key), None);
    assert!(e.compute.tree.get(&key).is_none());

    // Ensure undo freelist is populated (best-effort).
    let meta = MetaPage::decode(&e.compute.page_cache[&META_PAGE_ID]).unwrap();
    assert!(meta.undo_free.len() > 0);
}

#[test]
fn aborted_writes_leave_no_trace() {
    let mut e = Engine::start();
    e.put(&fixed_key(1), &fixed_value(1));
    let mut tx = e.begin_rw();
    tx.put(&mut e.compute, 0, &fixed_key(1), &fixed_value(2)).unwrap();
    tx.put(&mut e.compute, 0, &fixed_key(2), &fixed_value(2)).unwrap();
    tx.delete(&mut e.compute, 0, &fixed_key(1)).unwrap();
    tx.abort(&mut e.compute).unwrap();
    assert_eq!(e.get(&fixed_key(1)), Some(fixed_value(1)));
    assert_eq!(e.get(&fixed_key(2)), None);
}

#[test]
fn many_rows_survive_a_restart() {
    let mut e = Engine::start();
    for i in 0..60u64 {
        e.put(&test_key(i * 37 % 61), &test_value(i as u8));
    }
    for i in 0..20u64 {
        e.delete(&test_key(i));
    }
    let pages = list_pages(&e.store.pages);
    let (compute, _) = EmbeddedCompute::recover(&pages).unwrap().unwrap();
    let lsn = e.seq.durable_lsn();
    let mut e2 = Engine { compute, seq: e.seq, store: e.store };
    let mut tx = EmbeddedTxn::begin(&mut e2.compute, true, None, lsn, 0);
    for i in 0..60u64 {
        let k = i * 37 % 61;
        let want = if k < 20 { None } else { Some(test_value(i as u8)) };
        assert_eq!(e2.read(&mut tx, &test_key(k)), want);
    }
}

#[test]
fn sequencer_follows_the_quorum() {
    assert_eq!(seed_from(0), 1);
    assert!(request_seed() >= 1);
    assert_eq!(clamp_quorum(0, 3), 1);
    assert_eq!(clamp_quorum(9, 3), 3);
    assert_eq!(quorum_lsn(&vec![5, 9, 7], 2), 7);
    assert!(check_reachable(2, 2, &vec![]).is_ok());
    assert!(check_reachable(1, 2, &vec!["n1 down".to_string()]).is_err());

    let mut s = SequencerState::new(&vec![5, 9, 7], 2, 1);
    assert_eq!(s.durable_lsn(), 7);
    let (_, start, end) = s.reserve_txn(3).unwrap();
    assert_eq!((start, end), (7, 10));
    assert!(matches!(s.dispatch_turn(start), DispatchTurn::Go));
    assert!(matches!(s.dispatch_turn(end), DispatchTurn::Wait));
    assert!(matches!(s.dispatch_turn(start - 1), DispatchTurn::Stale(_)));
    let replies = vec![
        NodeReply::Acked { commit: 10, durable: 10 },
        NodeReply::Failed("gone".to_string()),
        NodeReply::Acked { commit: 10, durable: 10 },
    ];
    let t = tally(&replies, end);
    assert_eq!(t.acks.len(), 2);
    assert_eq!(t.errs.len(), 1);
    assert_eq!(s.commit_reserved_txn_batch(&replies, end).unwrap(), 10);
    assert_eq!(s.durable_lsn(), 10);
    let (_, _, end) = s.reserve_txn(1).unwrap();
    let bad = vec![NodeReply::Failed("a".to_string()), NodeReply::Failed("b".to_string())];
    assert!(s.commit_reserved_txn_batch(&bad, end).is_err());
    assert!(s.reserve_txn(0).is_err());
    assert!(s.reserve_txn(257).is_err());
}

#[test]
fn startup_rules() {
    assert_eq!(positive_setting(Some("12"), 5), 12);
    assert_eq!(positive_setting(Some("0"), 5), 5);
    assert_eq!(positive_setting(Some("x"), 5), 5);
    assert_eq!(positive_setting(None, 5), 5);
    assert_eq!(next_scan_start(9), 10);
    assert_eq!(next_scan_start(u64::MAX), u64::MAX);
    assert!(next_backoff_ms(1) >= 2);
    let page = Bytes::from(vec![1u8; PAGE_SIZE]);
    assert!(matches!(
        fetch_step(FetchReply::Page { page: page.clone(), durable: 4 }, 4),
        FetchStep::Use(_)
    ));
    assert!(matches!(
        fetch_step(FetchReply::Page { page, durable: 3 }, 4),
        FetchStep::AskAgain
    ));
    assert!(matches!(fetch_step(FetchReply::NoPage, 4), FetchStep::Absent));
    assert!(matches!(fetch_step(FetchReply::Failed, 4), FetchStep::AskAgain));
    assert!(matches!(
        check_page_sizes(&vec![(1, Bytes::from(vec![0u8; 5]))]),
        Err(Error::InvalidPageSize(5, 16384))
    ));
}

#[test]
fn room_is_known_before_rows_are_written() {
    let mut e = Engine::start();
    assert_eq!(e.compute.tree.levels(), Some(0));
    assert!(e.compute.room_for(1));
    assert!(e.compute.room_for(1_000_000));
    assert!(e.compute.room_for(0x7fff_ffff));
    let next = e.compute.tree.provider.next_page_id();
    e.compute.tree.provider.set_next_page_id(u64::MAX - 4);
    assert!(e.compute.room_for(1));
    assert!(!e.compute.room_for(2));
    e.compute.tree.provider.set_next_page_id(next);
    for i in 0..40u64 {
        e.put(&test_key(i), &test_value(i as u8));
    }
    assert_eq!(e.compute.tree.levels(), Some(1));
    assert!(e.compute.room_for(40));
}

#[test]
fn a_read_only_commit_changes_nothing() {
    let mut e = Engine::start();
    e.put(&test_key(1), &test_value(1));
    let durable = e.seq.durable_lsn();
    let pages = e.compute.page_cache.len();
    let mut ro = e.begin_ro();
    let reads = e.compute.active_reads.list().len();
    assert_eq!(e.read(&mut ro, &test_key(1)), Some(test_value(1)));
    let step = ro.prepare_commit(&mut e.compute, &mut e.seq, 0).unwrap();
    assert!(matches!(step, CommitStep::Done(lsn) if lsn == durable));
    assert_eq!(e.compute.page_cache.len(), pages);
    assert_eq!(e.compute.active_reads.list().len(), reads);
    ro.release(&mut e.compute);
    assert_eq!(e.compute.active_reads.list().len(), reads - 1);
    assert_eq!(e.seq.durable_lsn(), durable);
}

#[test]
fn a_commit_writes_every_staged_page() {
    let mut e = Engine::start();
    for i in 0..30u64 {
        e.put(&test_key(i), &test_value(1));
    }
    // Enough old rows for several undo pages.
    let mut tx = e.begin_rw();
    for i in 0..30u64 {
        tx.put(&mut e.compute, 0, &test_key(i), &test_value(2)).unwrap();
    }
    let staged: Vec<u64> = tx.dirty.keys().copied().collect();
    assert!(staged.len() > 2);
    let before = tx.dirty.clone();
    let first = tx.undo.first_page_id.unwrap();
    let plan = match tx.prepare_commit(&mut e.compute, &mut e.seq, 0).unwrap() {
        CommitStep::Write(plan) => plan,
        CommitStep::Done(_) => panic!("there are pages to write"),
    };
    for id in staged {
        let entry = plan.pages.iter().find(|p| p.0 == id).unwrap();
        if id != META_PAGE_ID && id != first && !tx.bptree_dirty.contains_key(&id) {
            assert_eq!(entry.1, before[&id]);
        }
    }
}

fn next_lsn(seq: &Sequencer) -> u64 {
    match seq {
        Sequencer::InProcess(s) => s.next_lsn,
        Sequencer::Network(s) => s.next_lsn,
    }
}

#[test]
fn a_commit_whose_intents_were_taken_back_is_refused() {
    let mut e = Engine::start();
    let (k1, k2) = (test_key(1), test_key(2));
    e.put(&k1, &test_value(1));

    let mut late = e.begin_rw();
    late.put(&mut e.compute, 0, &k1, &test_value(2)).unwrap();
    late.put(&mut e.compute, 0, &k2, &test_value(3)).unwrap();
    let id = late.undo_txn_id.unwrap();
    e.compute.resolve_txn_intents(id, &late.modified).unwrap();

    let next = next_lsn(&e.seq);
    let err = late.prepare_commit(&mut e.compute, &mut e.seq, 0).unwrap_err();
    assert_eq!(err.category(), ErrorCategory::Backpressure);
    assert!(err.is_retryable());
    assert!(err.message().contains("intent ownership changed before commit"));
    assert_eq!(next_lsn(&e.seq), next);
    late.release(&mut e.compute);
    assert_eq!(e.get(&k1), Some(test_value(1)));
    assert_eq!(e.get(&k2), None);

    let mut fresh = e.begin_rw();
    fresh.put(&mut e.compute, 0, &k2, &test_value(4)).unwrap();
    let id = fresh.undo_txn_id.unwrap();
    e.compute.resolve_txn_intents(id, &fresh.modified).unwrap();
    let err = fresh.prepare_commit(&mut e.compute, &mut e.seq, 0).unwrap_err();
    assert_eq!(err.category(), ErrorCategory::Backpressure);
    assert!(err.message().contains("intent missing before commit"));
    assert_eq!(e.get(&k2), None);
}

#[test]
fn a_refused_commit_leaves_the_rows_of_others() {
    let mut e = Engine::start();
    let (k1, k2) = (test_key(1), test_key(2));
    e.put(&k2, &test_value(1));

    let mut late = e.begin_rw();
    late.put(&mut e.compute, 0, &k1, &test_value(2)).unwrap();
    late.put(&mut e.compute, 0, &k2, &test_value(2)).unwrap();
    let id = late.undo_txn_id.unwrap();
    e.compute.resolve_txn_intents(id, &late.modified).unwrap();
    let mut other = e.begin_rw();
    other.put(&mut e.compute, 0, &k1, &test_value(7)).unwrap();
    other.put(&mut e.compute, 0, &k2, &test_value(8)).unwrap();

    let err = late.prepare_commit(&mut e.compute, &mut e.seq, 0).unwrap_err();
    assert!(err.message().contains("intent ownership changed before commit"));
    e.commit(other).unwrap();
    assert_eq!(e.get(&k1), Some(test_value(7)));
    assert_eq!(e.get(&k2), Some(test_value(8)));
}

#[test]
fn a_snapshot_outlives_several_overwrites() {
    let mut e = Engine::start();
    let key = test_key(5);
    e.put(&key, &test_value(1));
    let mut first = e.begin_ro();
    e.put(&key, &test_value(2));
    let mut second = e.begin_ro();
    e.delete(&key);
    let mut third = e.begin_ro();
    e.put(&key, &test_value(4));
    assert!(first.can_read(&e.compute, &key));
    assert_eq!(e.read(&mut first, &key), Some(test_value(1)));
    assert_eq!(e.read(&mut second, &key), Some(test_value(2)));
    assert_eq!(e.read(&mut third, &key), None);
    assert_eq!(e.get(&key), Some(test_value(4)));
    let mut writer = e.begin_rw();
    writer.put(&mut e.compute, 0, &key, &test_value(5)).unwrap();
    assert_eq!(e.read(&mut first, &key), Some(test_value(1)));
    assert_eq!(e.read(&mut second, &key), Some(test_value(2)));
}

#[test]
fn a_broken_meta_page_stops_writes_and_commits() {
    let mut e = Engine::start();
    let (k1, k2) = (test_key(1), test_key(2));
    e.put(&k1, &test_value(1));
    let mut tx = e.begin_rw();
    tx.put(&mut e.compute, 0, &k2, &test_value(2)).unwrap();
    e.compute.page_cache.insert(META_PAGE_ID, Bytes::from(vec![0u8; PAGE_SIZE]));

    let err = tx.put(&mut e.compute, 0, &k1, &test_value(3)).unwrap_err();
    assert!(err.message().contains("invalid meta page magic"));
    let next = next_lsn(&e.seq);
    let err = tx.prepare_commit(&mut e.compute, &mut e.seq, 0).unwrap_err();
    assert!(err.message().contains("invalid meta page magic"));
    assert_eq!(next_lsn(&e.seq), next);
    assert_eq!(e.get(&k1), Some(test_value(1)));
    let pages = vec![(META_PAGE_ID, Bytes::from(vec![0u8; 5]))];
    assert!(matches!(
        EmbeddedCompute::recover(&pages).map(|_| ()),
        Err(Error::InvalidPageSize(5, 16384))
    ));
}

#[test]
fn a_missing_undo_page_keeps_the_intent() {
    let mut e = Engine::start();
    let (k1, k2) = (test_key(1), test_key(2));
    e.put(&k1, &test_value(1));
    let mut tx = e.begin_rw();
    tx.put(&mut e.compute, 0, &k1, &test_value(2)).unwrap();
    tx.put(&mut e.compute, 0, &k2, &test_value(3)).unwrap();
    let ptr = e.compute.tree.get(&k1).unwrap().meta.undo_ptr.unwrap();
    e.compute.page_cache.remove(&ptr.page_id);
    assert!(e.compute.can_resolve(&tx.modified));
    let id = tx.undo_txn_id.unwrap();
    let err = tx.abort(&mut e.compute).unwrap_err();
    assert!(matches!(err, Error::InMemoryPageMissing(x) if x == ptr.page_id));
    let row = e.compute.tree.get(&k1).unwrap();
    assert_eq!(row.meta.intent_txn_id, id);
    assert_eq!(row.value.as_ref(), test_value(2).as_slice());
    assert!(tx.guard.is_none());
}

#[test]
fn undo_records_need_page_ids() {
    let mut e = Engine::start();
    let key = test_key(1);
    e.put(&key, &test_value(1));
    let tx = e.begin_rw();
    assert!(tx.can_put_undo(&e.compute));
    let mut meta = MetaPage::decode(&e.compute.page_cache[&META_PAGE_ID]).unwrap();
    meta.next_undo_page_id = u64::MAX;
    e.compute.page_cache.insert(META_PAGE_ID, meta.encode());
    assert!(!tx.can_put_undo(&e.compute));
}

#[test]
fn a_batch_over_the_limit_is_refused_with_its_size() {
    let mut seq = Sequencer::Network(SequencerState::new(&vec![0], 1, 1));
    let err = seq.reserve_txn(257).unwrap_err();
    assert_eq!(err.category(), ErrorCategory::InvalidInput);
    assert!(err.message().contains("txn batch too large: writes=257 max=256"));
    let err = seq.reserve_txn_with_request_id(3, 0).unwrap_err();
    assert!(err.message().contains("request_id must be non-zero"));
    let mut local = Sequencer::InProcess(InProcessSequencer::with_random(1));
    let err = local.reserve_txn(0).unwrap_err();
    assert!(err.message().contains("txn batch must be non-empty"));
    assert_eq!(local.reserve_txn(257).unwrap(), (2, 0, 257));
}

#[test]
fn committed_rows_survive_restarts() {
    let mut e = Engine::start();
    for round in 0..3u64 {
        for i in 0..40u64 {
            e.put(&test_key(100 * round + i), &test_value((round + i) as u8));
        }
        let root = e.compute.tree.root_page_id();
        let next = e.compute.tree.provider.next_page_id();
        let pages = list_pages(&e.store.pages);
        let (compute, fixed) = EmbeddedCompute::recover(&pages).unwrap().unwrap();
        assert!(fixed.is_none());
        assert_eq!(compute.tree.provider.btree_meta_page_id, BTREE_META_PAGE_ID);
        assert_eq!(compute.tree.root_page_id(), root);
        assert_eq!(compute.tree.provider.next_page_id(), next);
        let named = compute.tree.provider.read_page(BTREE_META_PAGE_ID).unwrap();
        assert_eq!(BtreeMeta::decode(&named).unwrap().root_page_id, root);
        e.compute = compute;
    }
    assert_ne!(e.compute.tree.root_page_id(), 10);
    for round in 0..3u64 {
        for i in 0..40u64 {
            let want = Some(test_value((round + i) as u8));
            assert_eq!(e.get(&test_key(100 * round + i)), want);
        }
    }
    assert_eq!(e.compute.tree.validate(), Ok(()));
}

#[test]
fn the_meta_page_names_the_root_where_no_other_page_does() {
    let mut e = Engine::start();
    for i in 0..40u64 {
        e.put(&test_key(i), &test_value(i as u8));
    }
    let mut pages = list_pages(&e.store.pages);
    pages.retain(|(id, _)| *id != BTREE_META_PAGE_ID);
    let (compute, _) = EmbeddedCompute::recover(&pages).unwrap().unwrap();
    assert_eq!(compute.tree.root_page_id(), e.compute.tree.root_page_id());
    e.compute = compute;
    assert_eq!(e.get(&test_key(39)), Some(test_value(39)));
    let broken = vec![
        (META_PAGE_ID, e.store.get(META_PAGE_ID).unwrap()),
        (BTREE_META_PAGE_ID, Bytes::from(vec![0u8; PAGE_SIZE])),
    ];
    let err = EmbeddedCompute::recover(&broken).map(|_| ()).unwrap_err();
    assert!(err.message().contains("invalid btree meta magic"));
}

#[test]
fn purging_spares_what_a_snapshot_follows() {
    let mut e = Engine::start();
    let key = test_key(7);
    e.put(&key, &test_value(1));
    e.put(&key, &test_value(2));
    let mut old = e.begin_ro();
    e.put(&key, &test_value(3));
    e.put(&key, &test_value(4));
    let meta = MetaPage::decode(&e.compute.page_cache[&META_PAGE_ID]).unwrap();
    let durable = e.seq.durable_lsn();
    assert!(e.compute.can_purge(&meta, durable));
    e.gc(100);
    let meta = MetaPage::decode(&e.compute.page_cache[&META_PAGE_ID]).unwrap();
    assert!(!meta.undo_free.is_empty());
    assert_eq!(e.read(&mut old, &key), Some(test_value(2)));
    assert_eq!(e.get(&key), Some(test_value(4)));
}

#[test]
fn a_transaction_puts_down_records_on_several_pages() {
    let mut e = Engine::start();
    for i in 0..40u64 {
        e.put(&test_key(i), &test_value(1));
    }
    let mut old = e.begin_ro();
    let mut tx = e.begin_rw();
    for i in 0..40u64 {
        tx.put(&mut e.compute, 0, &test_key(i), &test_value(2)).unwrap();
    }
    assert_ne!(tx.undo.first_page_id, tx.undo.last_page_id);
    assert_eq!(tx.undo.record_count, 40);
    let lsn = e.commit(tx).unwrap();
    assert!(e.seq.durable_lsn() >= lsn);
    for i in 0..40u64 {
        assert_eq!(e.read(&mut old, &test_key(i)), Some(test_value(1)));
        assert_eq!(e.get(&test_key(i)), Some(test_value(2)));
    }
}

#[test]
fn stored_pages_are_looked_at_before_use() {
    let mut e = Engine::start();
    for i in 0..200u64 {
        e.put(&test_key(i), &test_value(i as u8));
    }
    assert!(e.compute.has_tree());
    let pages = list_pages(&e.store.pages);
    let (compute, _) = EmbeddedCompute::recover(&pages).unwrap().unwrap();
    assert!(compute.has_tree());
    assert_eq!(compute.tree.levels(), Some(1));
    let first = compute.tree.provider.read_page(10).unwrap();

    // A leaf is missing.
    let mut missing = list_pages(&e.store.pages);
    missing.retain(|(id, _)| *id != 10);
    let (compute, _) = EmbeddedCompute::recover(&missing).unwrap().unwrap();
    assert!(!compute.has_tree());

    // Two children are the same page.
    let mut twice = list_pages(&e.store.pages);
    for (id, page) in twice.iter_mut() {
        if *id == 11 {
            *page = first.clone();
        }
    }
    let (compute, _) = EmbeddedCompute::recover(&twice).unwrap().unwrap();
    assert!(!compute.has_tree());

    // The root is named wrongly.
    let mut other = list_pages(&e.store.pages);
    for (id, page) in other.iter_mut() {
        if *id == BTREE_META_PAGE_ID {
            *page = BtreeMeta { root_page_id: 999 }.encode();
        }
    }
    let (compute, _) = EmbeddedCompute::recover(&other).unwrap().unwrap();
    assert!(!compute.has_tree());
}
