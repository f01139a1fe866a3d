//! What a storage node knows besides its files: durable and applied positions,
//! row versions, requests that were answered, reads in progress and page ids.
use vstd::prelude::*;
use vstd::string::*;

use super::config::StorageMaintenanceConfig;
use super::mvcc::{apply_txn_batch_to_mvcc, gc_mvcc_versions, is_committed, mvcc_get_at,
    rows_after, rows_after_gc, rows_pruned, versions_pruned, versions_total, visible, MvccStore,
    VersionFields};
use super::wal_codec::{records_view, BatchFields, RecordFields, WalBatch, WalRecord,
    WAL_OP_PAGE_IMAGE};
use crate::active_reads::{is_least, ActiveReadInfo, ActiveReads, ReadGuard};
use crate::common::{bytes_view, io_error, is_io_error, page_bytes, Error, IoErrorKind, Page,
    PageId, Result, PAGE_SIZE};
use crate::layout::copy_bytes;
use crate::text::{dec, put_num, text_num2};
use std::collections::{BTreeMap, BTreeSet};

verus! {

broadcast use vstd::std_specs::btree::group_btree_axioms;

/// A snapshot read; it may end after a while.
#[derive(Debug)]
pub struct MvccReadHandle {
    pub read_lsn: u64,
    pub timeout_nanos: Option<u128>,
    pub guard: Option<ReadGuard>,
}

impl MvccReadHandle {
    /// The id under which the read is registered.
    pub fn id(&self) -> (r: Option<u64>)
        ensures
            r == (match self.guard {
                Some(g) => Some(g.id),
                None => None,
            }),
    {
        match &self.guard {
            Some(g) => Some(g.id()),
            None => None,
        }
    }

    pub open spec fn active(&self, reads: Map<u64, u64>) -> bool {
        self.guard matches Some(g) && reads.contains_key(g.id)
    }

    pub fn is_active(&self, reads: &ActiveReads) -> (r: bool)
        ensures
            r == self.active(reads.reads()),
    {
        match &self.guard {
            Some(g) => g.is_active(reads),
            None => false,
        }
    }

    /// Ends the read.
    pub fn close(&mut self, reads: &mut ActiveReads)
        requires
            old(reads).wf(),
        ensures
            final(reads).wf(),
            final(self).guard is None,
            final(self).read_lsn == old(self).read_lsn,
            final(self).timeout_nanos == old(self).timeout_nanos,
            final(reads).next_id == old(reads).next_id,
            final(reads).reads() == (match old(self).guard {
                Some(g) => old(reads).reads().remove(g.id),
                None => old(reads).reads(),
            }),
    {
        let mut guard: Option<ReadGuard> = None;
        std::mem::swap(&mut guard, &mut self.guard);
        match guard {
            Some(g) => g.release(reads),
            None => {},
        }
    }

    /// Whether the read lasts too long, `elapsed_nanos` after it began.
    pub fn is_timed_out(&self, elapsed_nanos: u128) -> (r: bool)
        ensures
            r == (self.timeout_nanos matches Some(t) && elapsed_nanos > t),
    {
        match self.timeout_nanos {
            Some(t) => elapsed_nanos > t,
            None => false,
        }
    }
}

/// What is to be done with a request to write pages.
#[derive(Debug)]
pub enum TxnPlan {
    /// The request was answered before.
    Done(u64),
    /// The batch is to be appended to the log.
    Append(WalBatch),
}

/// The records of a request to write pages.
pub open spec fn image_records(start_lsn: u64, writes: Seq<(PageId, Page)>) -> Seq<RecordFields> {
    Seq::new(
        writes.len(),
        |i: int|
            RecordFields {
                lsn: (start_lsn + i) as u64,
                op: WAL_OP_PAGE_IMAGE,
                page_id: writes[i].0,
                slot_id: 0,
                key: seq![],
                value: bytes_view(writes[i].1),
            },
    )
}

/// The first page of a wrong size.
pub open spec fn first_bad_page(writes: Seq<(PageId, Page)>, i: int) -> int
    decreases writes.len() - i,
{
    if i >= writes.len() || bytes_view(writes[i].1).len() != PAGE_SIZE {
        i
    } else {
        first_bad_page(writes, i + 1)
    }
}

/// What is wrong with a batch that comes when `expected_start` is the durable
/// boundary, if anything is.
pub open spec fn batch_fault(b: BatchFields, expected_start: u64) -> Option<Seq<char>> {
    if b.start_lsn != expected_start {
        Some(
            "wal batch out of order: start_lsn="@ + dec(b.start_lsn as int) + " expected_start="@
                + dec(expected_start as int),
        )
    } else if b.end_lsn < b.start_lsn {
        Some("wal batch invalid range"@)
    } else if b.end_lsn - b.start_lsn != b.records.len() {
        Some(
            "wal batch length mismatch: records="@ + dec(b.records.len() as int) + " range_len="@
                + dec(b.end_lsn - b.start_lsn),
        )
    } else {
        let i = first_gap(b, 0);
        if i < b.records.len() {
            Some(
                "wal record lsn mismatch: got="@ + dec(b.records[i].lsn as int) + " want="@ + dec(
                    b.start_lsn + i,
                ),
            )
        } else {
            None
        }
    }
}

/// The first record from `i` on whose LSN is not the next one.
pub open spec fn first_gap(b: BatchFields, i: int) -> int
    decreases b.records.len() - i,
{
    if i >= b.records.len() || b.records[i].lsn != b.start_lsn + i {
        i
    } else {
        first_gap(b, i + 1)
    }
}

/// Rejects a batch that does not continue the log: batches must arrive in LSN
/// order with no gaps.
pub fn validate_wal_batch(batch: &WalBatch, expected_start: u64) -> (r: Result<()>)
    ensures
        match batch_fault(batch@, expected_start) {
            Some(m) => r matches Err(e) && is_io_error(e, IoErrorKind::InvalidInput, m),
            None => r is Ok,
        },
        r is Ok <==> continues_log(batch@, expected_start),
{
    let ghost b = batch@;
    proof {
        law_accepted_batch_continues_log(b, expected_start);
    }
    if batch.start_lsn != expected_start {
        let m = text_num2(
            "wal batch out of order: start_lsn=",
            batch.start_lsn,
            " expected_start=",
            expected_start,
        );
        return Err(io_error(IoErrorKind::InvalidInput, m.as_str()));
    }
    if batch.end_lsn < batch.start_lsn {
        return Err(io_error(IoErrorKind::InvalidInput, "wal batch invalid range"));
    }
    let expected_len: u64 = batch.end_lsn - batch.start_lsn;
    let n: usize = batch.records.len();
    if expected_len != n as u64 {
        let m = text_num2(
            "wal batch length mismatch: records=",
            n as u64,
            " range_len=",
            expected_len,
        );
        return Err(io_error(IoErrorKind::InvalidInput, m.as_str()));
    }
    let mut i: usize = 0;
    while i < n
        invariant
            n == batch.records@.len(),
            b == batch@,
            i <= n,
            b.records.len() == n,
            batch.start_lsn + n == batch.end_lsn,
            batch.start_lsn == expected_start,
            first_gap(b, 0) == first_gap(b, i as int),
        decreases n - i,
    {
        let want: u64 = batch.start_lsn + i as u64;
        let got: u64 = batch.records[i].lsn;
        assert(b.records[i as int].lsn == got);
        if got != want {
            let m = text_num2("wal record lsn mismatch: got=", got, " want=", want);
            return Err(io_error(IoErrorKind::InvalidInput, m.as_str()));
        }
        i += 1;
    }
    Ok(())
}

/// Where the check of the log's size stands.
#[derive(Clone, Copy, Debug, PartialEq, Eq, Structural)]
pub enum LimitStage {
    /// Before anything was done.
    First,
    /// While no other request checks.
    Alone,
    /// After a checkpoint.
    AfterCheckpoint,
}

/// What to do about the log's size.
#[derive(Debug)]
pub enum LimitAction {
    /// The log may grow.
    Proceed,
    /// Look again while no other request checks.
    CheckAlone,
    /// Write a checkpoint, drop segments if so configured, and look again.
    Checkpoint { truncate: bool },
    /// The request is refused.
    Reject(Error),
}

pub open spec fn backpressure_text(
    segments: int,
    bytes: int,
    config: StorageMaintenanceConfig,
) -> Seq<char> {
    "wal backpressure: segments="@ + dec(segments) + " bytes="@ + dec(bytes)
        + " limits=(segments:"@ + dec(config.max_wal_segments as int) + " bytes:"@ + dec(
        config.max_wal_bytes as int,
    ) + ")"@
}

/// The next step for a request, given how the log exceeds its limits.
pub fn limit_action(
    stage: LimitStage,
    over: Option<(usize, u64)>,
    config: &StorageMaintenanceConfig,
) -> (r: LimitAction)
    ensures
        match over {
            None => r is Proceed,
            Some((segments, bytes)) => match stage {
                LimitStage::First => r is CheckAlone,
                LimitStage::Alone => r matches LimitAction::Checkpoint { truncate } && truncate
                    == config.truncate_wal,
                LimitStage::AfterCheckpoint => r matches LimitAction::Reject(e) && is_io_error(
                    e,
                    IoErrorKind::WouldBlock,
                    backpressure_text(segments as int, bytes as int, *config),
                ),
            },
        },
{
    match over {
        None => LimitAction::Proceed,
        Some((segments, bytes)) => match stage {
            LimitStage::First => LimitAction::CheckAlone,
            LimitStage::Alone => LimitAction::Checkpoint { truncate: config.truncate_wal },
            LimitStage::AfterCheckpoint => {
                let mut m = text_num2(
                    "wal backpressure: segments=",
                    segments as u64,
                    " bytes=",
                    bytes,
                );
                put_num(&mut m, " limits=(segments:", config.max_wal_segments as u64);
                put_num(&mut m, " bytes:", config.max_wal_bytes);
                m.append(")");
                LimitAction::Reject(io_error(IoErrorKind::WouldBlock, m.as_str()))
            },
        },
    }
}

/// Versions that no read needs are older than this.
pub open spec fn watermark(reads: Map<u64, u64>, durable: u64, w: u64) -> bool {
    if reads == Map::<u64, u64>::empty() {
        w == durable
    } else {
        exists|lsn: u64| #[trigger] is_least(reads, lsn) && w == (if lsn < durable {
            lsn
        } else {
            durable
        })
    }
}

/// The counts of a garbage collection at `w`.
pub open spec fn collected(r: Option<(usize, usize)>, store: MvccStore, w: u64) -> bool {
    let es = store.entries@;
    &&& r matches Some(c)
    &&& c.0 == rows_pruned(es, w, es.len() as int)
    &&& c.1 == versions_pruned(es, w, es.len() as int)
}

/// State of a storage node in memory.
#[derive(Debug)]
pub struct NodeState {
    /// All records with an LSN below are durable.
    pub durable_lsn: u64,
    /// All records with an LSN up to this one are applied.
    pub applied_lsn: u64,
    pub mvcc: MvccStore,
    /// Commit points of the requests that were answered.
    pub request_index: BTreeMap<u64, u64>,
    pub active_reads: ActiveReads,
    pub page_index: BTreeSet<u64>,
    pub gc_batch_counter: usize,
}

impl NodeState {
    pub open spec fn wf(&self) -> bool {
        self.mvcc.wf() && self.active_reads.wf()
    }

    /// The state after recovery up to `last_applied`.
    pub fn recovered(last_applied: u64) -> (r: NodeState)
        ensures
            r.wf(),
            r.applied_lsn == last_applied,
            r.durable_lsn == (if last_applied < u64::MAX {
                last_applied + 1
            } else {
                u64::MAX as int
            }),
            r.mvcc.rows() == Map::<Seq<u8>, Seq<VersionFields>>::empty(),
            r.request_index@ == Map::<u64, u64>::empty(),
            r.active_reads.reads() == Map::<u64, u64>::empty(),
            r.page_index@ == Set::<u64>::empty(),
            r.gc_batch_counter == 0,
    {
        NodeState {
            durable_lsn: last_applied.saturating_add(1),
            applied_lsn: last_applied,
            mvcc: MvccStore::new(),
            request_index: BTreeMap::new(),
            active_reads: ActiveReads::new(),
            page_index: BTreeSet::new(),
            gc_batch_counter: 0,
        }
    }

    pub fn durable_lsn(&self) -> (r: u64)
        ensures
            r == self.durable_lsn,
    {
        self.durable_lsn
    }

    /// Begins a snapshot read at the durable boundary.
    pub fn begin_mvcc_ro_guard(&mut self) -> (r: (u64, ReadGuard))
        requires
            old(self).wf(),
            old(self).active_reads.next_id < u64::MAX,
        ensures
            final(self).applied_lsn == old(self).applied_lsn,
            final(self).page_index == old(self).page_index,
            final(self).gc_batch_counter == old(self).gc_batch_counter,
            final(self).wf(),
            r.0 == old(self).durable_lsn,
            !old(self).active_reads.reads().contains_key(r.1.id),
            final(self).active_reads.reads() == old(self).active_reads.reads().insert(
                r.1.id,
                old(self).durable_lsn,
            ),
            final(self).durable_lsn == old(self).durable_lsn,
            final(self).mvcc == old(self).mvcc,
            final(self).request_index == old(self).request_index,
    {
        let read_lsn: u64 = self.durable_lsn;
        let guard = self.active_reads.register(read_lsn);
        (read_lsn, guard)
    }

    /// Begins a snapshot read that may last `timeout_nanos`, or any time.
    pub fn begin_mvcc_ro_with_timeout(&mut self, timeout_nanos: Option<u128>) -> (r: MvccReadHandle)
        requires
            old(self).wf(),
            old(self).active_reads.next_id < u64::MAX,
        ensures
            final(self).applied_lsn == old(self).applied_lsn,
            final(self).page_index == old(self).page_index,
            final(self).gc_batch_counter == old(self).gc_batch_counter,
            final(self).wf(),
            r.read_lsn == old(self).durable_lsn,
            r.timeout_nanos == timeout_nanos,
            r.guard matches Some(g) && !old(self).active_reads.reads().contains_key(g.id)
                && final(self).active_reads.reads() == old(self).active_reads.reads().insert(
                g.id,
                old(self).durable_lsn,
            ),
            final(self).durable_lsn == old(self).durable_lsn,
            final(self).mvcc == old(self).mvcc,
            final(self).request_index == old(self).request_index,
    {
        let (read_lsn, guard) = self.begin_mvcc_ro_guard();
        MvccReadHandle { read_lsn, timeout_nanos, guard: Some(guard) }
    }

    /// Begins a snapshot read that may last any time.
    pub fn begin_mvcc_ro(&mut self) -> (r: MvccReadHandle)
        requires
            old(self).wf(),
            old(self).active_reads.next_id < u64::MAX,
        ensures
            final(self).applied_lsn == old(self).applied_lsn,
            final(self).page_index == old(self).page_index,
            final(self).gc_batch_counter == old(self).gc_batch_counter,
            final(self).wf(),
            r.read_lsn == old(self).durable_lsn,
            r.timeout_nanos is None,
            r.guard matches Some(g) && !old(self).active_reads.reads().contains_key(g.id)
                && final(self).active_reads.reads() == old(self).active_reads.reads().insert(
                g.id,
                old(self).durable_lsn,
            ),
            final(self).durable_lsn == old(self).durable_lsn,
            final(self).mvcc == old(self).mvcc,
            final(self).request_index == old(self).request_index,
    {
        self.begin_mvcc_ro_with_timeout(None)
    }

    pub fn list_active_reads(&self) -> (r: Vec<ActiveReadInfo>)
        ensures
            forall|i: int|
                0 <= i < r@.len() ==> self.active_reads.reads().contains_key((#[trigger] r@[i]).id),
            forall|id: u64| #[trigger]
                self.active_reads.reads().contains_key(id) ==> exists|i: int|
                    0 <= i < r@.len() && (#[trigger] r@[i]).id == id,
            forall|i: int, j: int|
                0 <= i < j < r@.len() ==> (#[trigger] r@[i]).id < (#[trigger] r@[j]).id,
    {
        self.active_reads.list()
    }

    /// Ends a read from outside; says whether it was in progress.
    pub fn abort_active_read(&mut self, id: u64) -> (r: bool)
        requires
            old(self).wf(),
        ensures
            final(self).applied_lsn == old(self).applied_lsn,
            final(self).page_index == old(self).page_index,
            final(self).gc_batch_counter == old(self).gc_batch_counter,
            final(self).wf(),
            r == old(self).active_reads.reads().contains_key(id),
            final(self).active_reads.reads() == old(self).active_reads.reads().remove(id),
            final(self).durable_lsn == old(self).durable_lsn,
            final(self).mvcc == old(self).mvcc,
            final(self).request_index == old(self).request_index,
    {
        self.active_reads.abort(id)
    }

    /// Reads a row as of the handle's snapshot, `elapsed_nanos` after it began.
    pub fn mvcc_get(
        &mut self,
        handle: &mut MvccReadHandle,
        elapsed_nanos: u128,
        key: &[u8],
    ) -> (r: Result<Option<Vec<u8>>>)
        requires
            old(self).wf(),
        ensures
            final(self).applied_lsn == old(self).applied_lsn,
            final(self).request_index == old(self).request_index,
            final(self).page_index == old(self).page_index,
            final(self).gc_batch_counter == old(self).gc_batch_counter,
            final(self).wf(),
            final(self).mvcc == old(self).mvcc,
            final(self).durable_lsn == old(self).durable_lsn,
            final(handle).read_lsn == old(handle).read_lsn,
            final(handle).timeout_nanos == old(handle).timeout_nanos,
            if old(handle).timeout_nanos matches Some(t) && elapsed_nanos > t {
                &&& r matches Err(Error::TxnTimeout)
                &&& final(handle).guard is None
                &&& final(self).active_reads.reads() == (match old(handle).guard {
                    Some(g) => old(self).active_reads.reads().remove(g.id),
                    None => old(self).active_reads.reads(),
                })
            } else {
                &&& *final(handle) == *old(handle)
                &&& final(self).active_reads.reads() == old(self).active_reads.reads()
                &&& if !old(handle).active(old(self).active_reads.reads()) {
                    r matches Err(e) && is_io_error(
                        e,
                        IoErrorKind::Interrupted,
                        "mvcc read handle aborted or closed"@,
                    )
                } else {
                    match visible(old(self).mvcc.history(key@), old(handle).read_lsn) {
                        Some(Some(v)) => r matches Ok(Some(w)) && w@ == v,
                        _ => r matches Ok(None),
                    }
                }
            },
    {
        if handle.is_timed_out(elapsed_nanos) {
            handle.close(&mut self.active_reads);
            return Err(Error::TxnTimeout);
        }
        if !handle.is_active(&self.active_reads) {
            return Err(io_error(IoErrorKind::Interrupted, "mvcc read handle aborted or closed"));
        }
        match mvcc_get_at(&self.mvcc, key, handle.read_lsn) {
            Some(v) => Ok(v),
            None => Ok(None),
        }
    }

    /// Reads a row as of `read_lsn`.
    pub fn txn_get(&self, key: &[u8], read_lsn: u64) -> (r: Option<Option<Vec<u8>>>)
        requires
            self.wf(),
        ensures
            match visible(self.mvcc.history(key@), read_lsn) {
                None => r is None,
                Some(None) => r == Some(None::<Vec<u8>>),
                Some(Some(v)) => r matches Some(Some(w)) && w@ == v,
            },
    {
        mvcc_get_at(&self.mvcc, key, read_lsn)
    }

    /// Rejects a batch that does not continue the log at the durable boundary.
    pub fn validate_incoming_wal_batch(&self, batch: &WalBatch) -> (r: Result<()>)
        ensures
            match batch_fault(batch@, self.durable_lsn) {
                Some(m) => r matches Err(e) && is_io_error(e, IoErrorKind::InvalidInput, m),
                None => r is Ok,
            },
            r is Ok <==> continues_log(batch@, self.durable_lsn),
    {
        validate_wal_batch(batch, self.durable_lsn)
    }

    /// Turns a request to write pages into a log batch, or finds it answered before.
    pub fn plan_txn_batch(
        &self,
        request_id: u64,
        start_lsn: u64,
        end_lsn: u64,
        writes: &Vec<(PageId, Page)>,
    ) -> (r: Result<TxnPlan>)
        requires
            request_id != 0 && self.request_index@.contains_key(request_id) || start_lsn
                + writes@.len() <= u64::MAX,
        ensures
            ({
                let bad = first_bad_page(writes@, 0);
                if request_id != 0 && self.request_index@.contains_key(request_id) {
                    r matches Ok(TxnPlan::Done(lsn)) && lsn == self.request_index@[request_id]
                } else if writes@.len() == 0 {
                    r matches Err(e) && is_io_error(
                        e,
                        IoErrorKind::InvalidInput,
                        "txn batch must be non-empty"@,
                    )
                } else if end_lsn != start_lsn + writes@.len() {
                    r matches Err(e) && is_io_error(
                        e,
                        IoErrorKind::InvalidInput,
                        "txn batch end_lsn mismatch: got="@ + dec(end_lsn as int) + " expected="@
                            + dec(start_lsn + writes@.len()),
                    )
                } else if bad < writes@.len() {
                    r matches Err(Error::InvalidPageSize(a, b)) && a == bytes_view(
                        writes@[bad].1,
                    ).len() && b == PAGE_SIZE
                } else {
                    r matches Ok(TxnPlan::Append(b)) && b@ == (BatchFields {
                        request_id,
                        start_lsn,
                        end_lsn,
                        records: image_records(start_lsn, writes@),
                    })
                }
            }),
    {
        if request_id != 0 {
            match self.request_index.get(&request_id) {
                Some(lsn) => {
                    return Ok(TxnPlan::Done(*lsn));
                },
                None => {},
            }
        }
        let n: usize = writes.len();
        if n == 0 {
            return Err(io_error(IoErrorKind::InvalidInput, "txn batch must be non-empty"));
        }
        let expected_end: u64 = start_lsn + n as u64;
        if end_lsn != expected_end {
            let m = text_num2(
                "txn batch end_lsn mismatch: got=",
                end_lsn,
                " expected=",
                expected_end,
            );
            return Err(io_error(IoErrorKind::InvalidInput, m.as_str()));
        }
        let mut records: Vec<WalRecord> = Vec::new();
        let mut i: usize = 0;
        while i < n
            invariant
                n == writes@.len(),
                i <= n,
                n > 0,
                start_lsn + n == end_lsn,
                request_id == 0 || !self.request_index@.contains_key(request_id),
                first_bad_page(writes@, 0) == first_bad_page(writes@, i as int),
                records_view(records@) == image_records(start_lsn, writes@).take(i as int),
                records@.len() == i,
            decreases n - i,
        {
            let w = &writes[i];
            let bytes = page_bytes(&w.1);
            if bytes.len() != PAGE_SIZE {
                return Err(Error::InvalidPageSize(bytes.len(), PAGE_SIZE));
            }
            let ghost before = records_view(records@);
            let rec = WalRecord {
                lsn: start_lsn + i as u64,
                op: WAL_OP_PAGE_IMAGE,
                page_id: w.0,
                slot_id: 0,
                key: Vec::new(),
                value: copy_bytes(bytes),
            };
            let ghost f = rec@;
            records.push(rec);
            proof {
                assert(f.key =~= seq![]);
                assert(f == image_records(start_lsn, writes@)[i as int]);
                assert(records_view(records@) =~= image_records(start_lsn, writes@).take(i + 1));
            }
            i += 1;
        }
        assert(records_view(records@) =~= image_records(start_lsn, writes@));
        Ok(TxnPlan::Append(WalBatch { request_id, start_lsn, end_lsn, records }))
    }

    /// Remembers the commit point of a request.
    pub fn remember_request(&mut self, request_id: u64, commit_lsn: u64)
        requires
            old(self).wf(),
        ensures
            final(self).applied_lsn == old(self).applied_lsn,
            final(self).page_index == old(self).page_index,
            final(self).gc_batch_counter == old(self).gc_batch_counter,
            final(self).wf(),
            final(self).request_index@ == (if request_id != 0 {
                old(self).request_index@.insert(request_id, commit_lsn)
            } else {
                old(self).request_index@
            }),
            final(self).durable_lsn == old(self).durable_lsn,
            final(self).mvcc == old(self).mvcc,
            final(self).active_reads == old(self).active_reads,
    {
        if request_id != 0 {
            self.request_index.insert(request_id, commit_lsn);
        }
    }

    /// Takes note of a durable batch: its request, and the rows that it commits.
    pub fn apply_batch(&mut self, batch: &WalBatch)
        requires
            old(self).wf(),
        ensures
            final(self).applied_lsn == old(self).applied_lsn,
            final(self).page_index == old(self).page_index,
            final(self).gc_batch_counter == old(self).gc_batch_counter,
            final(self).wf(),
            final(self).request_index@ == (if batch@.request_id != 0 {
                old(self).request_index@.insert(batch@.request_id, batch@.end_lsn)
            } else {
                old(self).request_index@
            }),
            final(self).mvcc.rows() == (if is_committed(batch@) {
                rows_after(
                    old(self).mvcc.rows(),
                    batch@.records,
                    batch@.end_lsn,
                    batch@.records.len() as int,
                )
            } else {
                old(self).mvcc.rows()
            }),
            final(self).durable_lsn == old(self).durable_lsn,
            final(self).active_reads == old(self).active_reads,
    {
        self.remember_request(batch.request_id, batch.end_lsn);
        apply_txn_batch_to_mvcc(&mut self.mvcc, batch);
    }

    /// Moves the applied position forward; says whether it moved.
    pub fn update_last_applied(&mut self, lsn: u64) -> (r: bool)
        ensures
            final(self).page_index == old(self).page_index,
            final(self).gc_batch_counter == old(self).gc_batch_counter,
            r == (lsn > old(self).applied_lsn),
            final(self).applied_lsn == (if lsn > old(self).applied_lsn {
                lsn
            } else {
                old(self).applied_lsn
            }),
            final(self).durable_lsn == old(self).durable_lsn,
            final(self).mvcc == old(self).mvcc,
            final(self).request_index == old(self).request_index,
            final(self).active_reads == old(self).active_reads,
    {
        if lsn > self.applied_lsn {
            self.applied_lsn = lsn;
            true
        } else {
            false
        }
    }

    /// How far garbage collection may go.
    pub fn gc_watermark(&self) -> (r: u64)
        ensures
            watermark(self.active_reads.reads(), self.durable_lsn, r),
    {
        match self.active_reads.min_read_lsn() {
            Some(lsn) => {
                proof {
                    assert(is_least(self.active_reads.reads(), lsn));
                    let id = choose|id: u64| #[trigger]
                        self.active_reads.reads().contains_key(id)
                            && self.active_reads.reads()[id] == lsn;
                    assert(self.active_reads.reads() != Map::<u64, u64>::empty()) by {
                        assert(!Map::<u64, u64>::empty().contains_key(id));
                    }
                }
                if lsn < self.durable_lsn {
                    lsn
                } else {
                    self.durable_lsn
                }
            },
            None => self.durable_lsn,
        }
    }

    /// Counts a batch; when `every` of them have come, collects garbage and returns
    /// how many rows lost versions and how many versions went.
    pub fn gc_tick(&mut self, every: usize) -> (r: Option<(usize, usize)>)
        requires
            old(self).wf(),
            old(self).gc_batch_counter < usize::MAX,
            versions_total(old(self).mvcc.entries@, old(self).mvcc.entries@.len() as int)
                <= usize::MAX,
        ensures
            final(self).applied_lsn == old(self).applied_lsn,
            final(self).page_index == old(self).page_index,
            final(self).wf(),
            final(self).durable_lsn == old(self).durable_lsn,
            final(self).request_index == old(self).request_index,
            final(self).active_reads == old(self).active_reads,
            if old(self).gc_batch_counter + 1 >= every {
                &&& final(self).gc_batch_counter == 0
                &&& exists|w: u64| #[trigger]
                    watermark(old(self).active_reads.reads(), old(self).durable_lsn, w)
                        && final(self).mvcc.rows() == rows_after_gc(old(self).mvcc.rows(), w)
                        && collected(r, old(self).mvcc, w)
            } else {
                &&& r is None
                &&& final(self).gc_batch_counter == old(self).gc_batch_counter + 1
                &&& final(self).mvcc == old(self).mvcc
            },
    {
        self.gc_batch_counter = self.gc_batch_counter + 1;
        if self.gc_batch_counter < every {
            return None;
        }
        self.gc_batch_counter = 0;
        let w: u64 = self.gc_watermark();
        let counts = gc_mvcc_versions(&mut self.mvcc, w);
        Some(counts)
    }

    /// Whether a page is known to the node.
    pub fn has_page(&self, page_id: PageId) -> (r: bool)
        ensures
            r == self.page_index@.contains(page_id),
    {
        self.page_index.contains(&page_id)
    }

    pub fn add_page(&mut self, page_id: PageId)
        ensures
            final(self).gc_batch_counter == old(self).gc_batch_counter,
            final(self).page_index@ == old(self).page_index@.insert(page_id),
            final(self).durable_lsn == old(self).durable_lsn,
            final(self).applied_lsn == old(self).applied_lsn,
            final(self).mvcc == old(self).mvcc,
            final(self).request_index == old(self).request_index,
            final(self).active_reads == old(self).active_reads,
    {
        self.page_index.insert(page_id);
    }

    pub fn remove_page(&mut self, page_id: PageId)
        ensures
            final(self).gc_batch_counter == old(self).gc_batch_counter,
            final(self).page_index@ == old(self).page_index@.remove(page_id),
            final(self).durable_lsn == old(self).durable_lsn,
            final(self).applied_lsn == old(self).applied_lsn,
            final(self).mvcc == old(self).mvcc,
            final(self).request_index == old(self).request_index,
            final(self).active_reads == old(self).active_reads,
    {
        self.page_index.remove(&page_id);
    }

    /// Pages that the node knows.
    pub fn len(&self) -> (r: usize)
        ensures
            r == self.page_index@.len(),
    {
        self.page_index.len()
    }
}

/// Garbage collection at the watermark changes no read in progress, and none
/// that begins at the durable boundary.
pub proof fn law_gc_spares_active_reads(
    reads: Map<u64, u64>,
    durable: u64,
    w: u64,
    h: Seq<VersionFields>,
    read_lsn: u64,
)
    requires
        watermark(reads, durable, w),
        read_lsn >= durable || exists|id: u64| #[trigger]
            reads.contains_key(id) && reads[id] == read_lsn,
    ensures
        visible(super::mvcc::pruned(h, w), read_lsn) == visible(h, read_lsn),
{
    if reads == Map::<u64, u64>::empty() {
        if read_lsn < durable {
            let id = choose|id: u64| #[trigger] reads.contains_key(id) && reads[id] == read_lsn;
            assert(!Map::<u64, u64>::empty().contains_key(id));
        }
    } else {
        let lsn = choose|lsn: u64| #[trigger]
            is_least(reads, lsn) && w == (if lsn < durable {
                lsn
            } else {
                durable
            });
        if read_lsn < durable {
            let id = choose|id: u64| #[trigger] reads.contains_key(id) && reads[id] == read_lsn;
            assert(lsn <= reads[id]);
        }
    }
    super::mvcc::law_gc_keeps_reads(h, w, read_lsn);
}

proof fn lemma_no_gap(b: BatchFields, i: int)
    requires
        0 <= i <= b.records.len(),
        forall|k: int| 0 <= k < b.records.len() ==> (#[trigger] b.records[k]).lsn == b.start_lsn + k,
    ensures
        first_gap(b, i) == b.records.len(),
    decreases b.records.len() - i,
{
    if i < b.records.len() {
        lemma_no_gap(b, i + 1);
    }
}

/// The batch of a request to write pages continues the log that ends at its start.
pub proof fn law_planned_batch_is_valid(
    request_id: u64,
    start_lsn: u64,
    end_lsn: u64,
    writes: Seq<(PageId, Page)>,
)
    requires
        end_lsn == start_lsn + writes.len(),
    ensures
        batch_fault(
            BatchFields {
                request_id,
                start_lsn,
                end_lsn,
                records: image_records(start_lsn, writes),
            },
            start_lsn,
        ) is None,
{
    let b = BatchFields {
        request_id,
        start_lsn,
        end_lsn,
        records: image_records(start_lsn, writes),
    };
    lemma_no_gap(b, 0);
}

/// A request that was remembered is answered with its commit point, whatever it asks.
pub proof fn law_retry_is_idempotent(index: Map<u64, u64>, request_id: u64, commit_lsn: u64)
    requires
        request_id != 0,
    ensures
        index.insert(request_id, commit_lsn).contains_key(request_id),
        index.insert(request_id, commit_lsn)[request_id] == commit_lsn,
{
}

/// The batch begins at the boundary and has one record for each LSN of its range, in
/// order.
pub open spec fn continues_log(b: BatchFields, boundary: u64) -> bool {
    &&& b.start_lsn == boundary
    &&& b.end_lsn == b.start_lsn + b.records.len()
    &&& forall|i: int| 0 <= i < b.records.len() ==> (#[trigger] b.records[i]).lsn == b.start_lsn + i
}

proof fn lemma_first_gap(b: BatchFields, i: int)
    requires
        0 <= i <= b.records.len(),
    ensures
        i <= first_gap(b, i) <= b.records.len(),
        forall|k: int| i <= k < first_gap(b, i) ==> (#[trigger] b.records[k]).lsn == b.start_lsn + k,
        first_gap(b, i) < b.records.len() ==> b.records[first_gap(b, i)].lsn != b.start_lsn
            + first_gap(b, i),
    decreases b.records.len() - i,
{
    if i < b.records.len() && b.records[i].lsn == b.start_lsn + i {
        lemma_first_gap(b, i + 1);
    }
}

/// A batch is accepted exactly if it continues the log: it starts at the durable
/// boundary, its range has as many LSNs as it has records, and record `i` has LSN
/// `start_lsn + i`. So what is accepted leaves no gap and repeats no LSN.
pub proof fn law_accepted_batch_continues_log(b: BatchFields, expected_start: u64)
    ensures
        batch_fault(b, expected_start) is None <==> {
            &&& b.start_lsn == expected_start
            &&& b.end_lsn - b.start_lsn == b.records.len()
            &&& forall|i: int|
                0 <= i < b.records.len() ==> (#[trigger] b.records[i]).lsn == b.start_lsn + i
        },
        batch_fault(b, expected_start) is None <==> continues_log(b, expected_start),
{
    lemma_first_gap(b, 0);
}

/// Two batches that are accepted one after the other, the boundary being moved behind
/// the first, have no LSN in common and none between them.
pub proof fn law_accepted_batches_adjoin(a: BatchFields, b: BatchFields, boundary: u64)
    requires
        batch_fault(a, boundary) is None,
        batch_fault(b, a.end_lsn) is None,
    ensures
        b.start_lsn == a.end_lsn,
        forall|i: int, j: int|
            0 <= i < a.records.len() && 0 <= j < b.records.len() ==> (#[trigger] a.records[i]).lsn < (
            #[trigger] b.records[j]).lsn,
        a.records.len() > 0 && b.records.len() > 0 ==> b.records[0].lsn == a.records.last().lsn + 1,
{
    law_accepted_batch_continues_log(a, boundary);
    law_accepted_batch_continues_log(b, a.end_lsn);
}

/// The first page of a wrong size is one, and all before it have the right size.
pub proof fn law_first_bad_page(writes: Seq<(PageId, Page)>, i: int)
    requires
        0 <= i <= writes.len(),
    ensures
        i <= first_bad_page(writes, i) <= writes.len(),
        forall|k: int|
            i <= k < first_bad_page(writes, i) ==> bytes_view((#[trigger] writes[k]).1).len()
                == PAGE_SIZE,
        first_bad_page(writes, i) < writes.len() ==> bytes_view(
            writes[first_bad_page(writes, i)].1,
        ).len() != PAGE_SIZE,
    decreases writes.len() - i,
{
    if i < writes.len() && bytes_view(writes[i].1).len() == PAGE_SIZE {
        law_first_bad_page(writes, i + 1);
    }
}

/// The log records of a request to write pages carry the pages: record `i` has the
/// `i`-th LSN, the id of the `i`-th page, and replaying it gives just the bytes of that
/// page, whatever the page held before.
pub proof fn law_images_carry_pages(
    start_lsn: u64,
    writes: Seq<(PageId, Page)>,
    i: int,
    before: Seq<u8>,
)
    requires
        0 <= i < writes.len(),
        start_lsn + writes.len() <= u64::MAX,
        bytes_view(writes[i].1).len() == PAGE_SIZE,
    ensures
        image_records(start_lsn, writes).len() == writes.len(),
        image_records(start_lsn, writes)[i].lsn == start_lsn + i,
        image_records(start_lsn, writes)[i].op == 1,
        image_records(start_lsn, writes)[i].page_id == writes[i].0,
        image_records(start_lsn, writes)[i].slot_id == 0,
        image_records(start_lsn, writes)[i].key.len() == 0,
        image_records(start_lsn, writes)[i].value == bytes_view(writes[i].1),
        super::wal_replay::page_after(before, image_records(start_lsn, writes)[i]) == Some(
            bytes_view(writes[i].1),
        ),
{
}

/// The watermark is not above the durable boundary nor above any read in progress, and
/// it is one of them.
pub proof fn law_watermark_spares_reads(reads: Map<u64, u64>, durable: u64, w: u64)
    requires
        watermark(reads, durable, w),
    ensures
        w <= durable,
        forall|id: u64| #[trigger] reads.contains_key(id) ==> w <= reads[id],
        w == durable || exists|id: u64| #[trigger] reads.contains_key(id) && reads[id] == w,
{
}

} // verus!
