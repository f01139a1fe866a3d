//! Applying log records to pages.
use vstd::prelude::*;

use super::wal_codec::{records_view, RecordFields, WalRecord, WAL_OP_PAGE_DEL, WAL_OP_PAGE_IMAGE,
    WAL_OP_PAGE_PUT, WAL_OP_TXN_COMMIT, WAL_OP_TXN_DEL, WAL_OP_TXN_PUT};
use crate::common::{Error, PageId, Result, KEY_SIZE, PAGE_SIZE, VALUE_SIZE};
use crate::key_order::is_key;
use crate::layout::{copy_bytes, splice};
use crate::slotted_page::{clear_slot, free_bytes, insert_record_at_slot_checked,
    insertable_at, law_clear_keeps_other_slots, law_place_keeps_other_slots, lemma_with_slot, needed_at,
    page_wf, placed_at, slot_holds, slot_id_fits, slot_insert, slot_is_inside, slot_len, slot_pos, slots_of,
    takes_slot, with_slot};
use std::collections::BTreeMap;

verus! {

broadcast use vstd::std_specs::btree::group_btree_axioms;

/// Records of one page that wait for being applied.
#[derive(Debug)]
pub struct ReplayBuffer {
    pub bytes: usize,
    pub records: Vec<WalRecord>,
}

/// Records are applied once a page has this many bytes of them.
pub const REPLAY_FLUSH_BYTES: usize = 8192;

/// Bytes that records count for.
pub open spec fn buffered_bytes(rs: Seq<RecordFields>) -> int
    decreases rs.len(),
{
    if rs.len() == 0 {
        0
    } else {
        buffered_bytes(rs.drop_last()) + rs.last().key.len() + rs.last().value.len() + 32
    }
}

fn copy_record(r: &WalRecord) -> (c: WalRecord)
    ensures
        c@ == r@,
{
    WalRecord {
        lsn: r.lsn,
        op: r.op,
        page_id: r.page_id,
        slot_id: r.slot_id,
        key: copy_bytes(r.key.as_slice()),
        value: copy_bytes(r.value.as_slice()),
    }
}

impl ReplayBuffer {
    pub open spec fn wf(&self) -> bool {
        self.bytes == buffered_bytes(records_view(self.records@))
    }

    pub fn new() -> (r: ReplayBuffer)
        ensures
            r.wf(),
            records_view(r.records@) == Seq::<RecordFields>::empty(),
    {
        let r = ReplayBuffer { bytes: 0, records: Vec::new() };
        assert(records_view(r.records@) =~= Seq::<RecordFields>::empty());
        r
    }

    pub fn push(&mut self, record: WalRecord)
        requires
            old(self).wf(),
            old(self).bytes + record.key@.len() + record.value@.len() + 32 <= usize::MAX,
        ensures
            final(self).wf(),
            records_view(final(self).records@) == records_view(old(self).records@).push(record@),
    {
        let ghost before = records_view(self.records@);
        let ghost fields = record@;
        self.bytes = self.bytes + record.key.len() + record.value.len() + 32;
        self.records.push(record);
        proof {
            let after = records_view(self.records@);
            assert(after =~= before.push(fields));
            assert(after.drop_last() =~= before);
        }
    }

    pub fn should_flush(&self) -> (r: bool)
        requires
            self.wf(),
        ensures
            r == (buffered_bytes(records_view(self.records@)) >= REPLAY_FLUSH_BYTES),
    {
        self.bytes >= REPLAY_FLUSH_BYTES
    }

    /// Empties the buffer.
    pub fn take(&mut self) -> (r: Vec<WalRecord>)
        ensures
            r@ == old(self).records@,
            final(self).wf(),
            final(self).records@ == Seq::<WalRecord>::empty(),
    {
        let mut out: Vec<WalRecord> = Vec::new();
        std::mem::swap(&mut out, &mut self.records);
        self.bytes = 0;
        assert(records_view(self.records@) =~= Seq::<RecordFields>::empty());
        out
    }
}

/// Records of one page that are to be applied now.
#[derive(Debug)]
pub struct PageFlush {
    pub page_id: PageId,
    pub records: Vec<WalRecord>,
}

pub open spec fn flushes_view(fs: Seq<PageFlush>) -> Seq<(u64, Seq<RecordFields>)> {
    Seq::new(fs.len(), |i: int| (fs[i].page_id, records_view(fs[i].records@)))
}

/// A record of a transaction, which concerns no page.
pub open spec fn is_txn_op(op: u8) -> bool {
    op == WAL_OP_TXN_PUT || op == WAL_OP_TXN_DEL || op == WAL_OP_TXN_COMMIT
}

fn txn_op(op: u8) -> (r: bool)
    ensures
        r == is_txn_op(op),
{
    op == WAL_OP_TXN_PUT || op == WAL_OP_TXN_DEL || op == WAL_OP_TXN_COMMIT
}

/// Records that wait, by page, and those that were handed out.
#[verifier::ext_equal]
pub struct QueueState {
    pub pending: Map<u64, Seq<RecordFields>>,
    pub out: Seq<(u64, Seq<RecordFields>)>,
}

pub open spec fn pending_of(m: Map<u64, Seq<RecordFields>>, p: u64) -> Seq<RecordFields> {
    if m.contains_key(p) {
        m[p]
    } else {
        seq![]
    }
}

/// One record comes to its page.
pub open spec fn queue_step(q: QueueState, r: RecordFields) -> QueueState {
    let rs = pending_of(q.pending, r.page_id).push(r);
    if buffered_bytes(rs) >= REPLAY_FLUSH_BYTES {
        QueueState {
            pending: q.pending.insert(r.page_id, seq![]),
            out: q.out.push((r.page_id, rs)),
        }
    } else {
        QueueState { pending: q.pending.insert(r.page_id, rs), out: q.out }
    }
}

/// The records of a batch from `i` on come in: those not applied yet, as long
/// as no LSN is missing.
pub open spec fn queue_run(q: QueueState, rs: Seq<RecordFields>, last: u64, i: int) -> QueueState
    decreases rs.len() - i,
{
    if i >= rs.len() {
        q
    } else if rs[i].lsn <= last {
        queue_run(q, rs, last, i + 1)
    } else if rs[i].lsn != last + 1 {
        q
    } else if is_txn_op(rs[i].op) {
        queue_run(q, rs, rs[i].lsn, i + 1)
    } else {
        queue_run(queue_step(q, rs[i]), rs, rs[i].lsn, i + 1)
    }
}

/// The records of all pages that wait for being applied.
#[derive(Debug)]
pub struct ReplayQueue {
    pub buffers: BTreeMap<u64, ReplayBuffer>,
}

impl ReplayQueue {
    pub open spec fn wf(&self) -> bool {
        forall|p: u64| #[trigger]
            self.buffers@.contains_key(p) ==> self.buffers@[p].wf() && self.buffers@[p].bytes
                < REPLAY_FLUSH_BYTES
    }

    /// What waits, by page.
    pub open spec fn pending(&self) -> Map<u64, Seq<RecordFields>> {
        self.buffers@.map_values(|b: ReplayBuffer| records_view(b.records@))
    }

    pub fn new() -> (r: ReplayQueue)
        ensures
            r.wf(),
            r.pending() == Map::<u64, Seq<RecordFields>>::empty(),
    {
        let r = ReplayQueue { buffers: BTreeMap::new() };
        assert(r.pending() =~= Map::<u64, Seq<RecordFields>>::empty());
        r
    }

    fn place(&mut self, record: WalRecord, out: &mut Vec<PageFlush>)
        requires
            old(self).wf(),
            record.key@.len() + record.value@.len() + 32 + REPLAY_FLUSH_BYTES <= usize::MAX,
        ensures
            final(self).wf(),
            ({
                let q = queue_step(
                    QueueState { pending: old(self).pending(), out: flushes_view(old(out)@) },
                    record@,
                );
                &&& final(self).pending() == q.pending
                &&& flushes_view(final(out)@) == q.out
            }),
    {
        let page_id: u64 = record.page_id;
        let ghost m0 = self.buffers@;
        let ghost p0 = self.pending();
        let ghost o0 = flushes_view(out@);
        let ghost fields = record@;
        let mut buffer = match self.buffers.remove(&page_id) {
            Some(b) => b,
            None => ReplayBuffer::new(),
        };
        proof {
            assert(records_view(buffer.records@) == pending_of(p0, page_id));
            assert(buffer.bytes < REPLAY_FLUSH_BYTES);
        }
        buffer.push(record);
        let ghost rs = records_view(buffer.records@);
        if buffer.should_flush() {
            let records = buffer.take();
            out.push(PageFlush { page_id, records });
            assert(flushes_view(out@) =~= o0.push((page_id, rs)));
            assert(records_view(buffer.records@) =~= Seq::<RecordFields>::empty());
        }
        let ghost b2 = buffer;
        self.buffers.insert(page_id, buffer);
        proof {
            assert(self.buffers@ =~= m0.insert(page_id, b2));
            assert(self.pending() =~= p0.insert(page_id, records_view(b2.records@)));
        }
    }

    /// Takes in the records of a batch, after everything up to `last_applied` was
    /// applied, and hands out what is to be applied now.
    pub fn take_in(&mut self, records: &Vec<WalRecord>, last_applied: u64) -> (r: Vec<PageFlush>)
        requires
            old(self).wf(),
            forall|i: int|
                0 <= i < records@.len() ==> (#[trigger] records@[i]).key@.len()
                    + records@[i].value@.len() + 32 + REPLAY_FLUSH_BYTES <= usize::MAX,
        ensures
            final(self).wf(),
            ({
                let q = queue_run(
                    QueueState { pending: old(self).pending(), out: seq![] },
                    records_view(records@),
                    last_applied,
                    0,
                );
                &&& final(self).pending() == q.pending
                &&& flushes_view(r@) == q.out
            }),
    {
        let mut out: Vec<PageFlush> = Vec::new();
        let ghost rs = records_view(records@);
        let ghost q0 = QueueState { pending: self.pending(), out: Seq::<(u64, Seq<RecordFields>)>::empty() };
        let ghost last0 = last_applied;
        let n: usize = records.len();
        let mut last: u64 = last_applied;
        let mut i: usize = 0;
        assert(flushes_view(out@) =~= Seq::<(u64, Seq<RecordFields>)>::empty());
        while i < n
            invariant
                n == records@.len(),
                rs == records_view(records@),
                i <= n,
                self.wf(),
                forall|k: int|
                    0 <= k < records@.len() ==> (#[trigger] records@[k]).key@.len()
                        + records@[k].value@.len() + 32 + REPLAY_FLUSH_BYTES <= usize::MAX,
                q0.pending == old(self).pending(),
                q0.out == Seq::<(u64, Seq<RecordFields>)>::empty(),
                queue_run(q0, rs, last_applied, 0) == queue_run(
                    QueueState { pending: self.pending(), out: flushes_view(out@) },
                    rs,
                    last,
                    i as int,
                ),
            decreases n - i,
        {
            let r = &records[i];
            assert(rs[i as int] == r@);
            if r.lsn <= last {
                i += 1;
                continue;
            }
            if r.lsn != last + 1 {
                return out;
            }
            last = r.lsn;
            if txn_op(r.op) {
                i += 1;
                continue;
            }
            let c = copy_record(r);
            self.place(c, &mut out);
            i += 1;
        }
        out
    }

    /// Hands out everything that still waits.
    pub fn drain(&mut self) -> (r: Vec<PageFlush>)
        requires
            old(self).wf(),
        ensures
            final(self).wf(),
            final(self).pending() == Map::<u64, Seq<RecordFields>>::empty(),
            forall|i: int|
                0 <= i < r@.len() ==> old(self).pending().contains_key((#[trigger] r@[i]).page_id)
                    && records_view(r@[i].records@) == old(self).pending()[r@[i].page_id],
            forall|i: int, j: int|
                0 <= i < j < r@.len() ==> (#[trigger] r@[i]).page_id != (#[trigger] r@[j]).page_id,
            r@.len() == old(self).pending().len(),
    {
        let ghost p0 = self.pending();
        let ghost m0 = self.buffers@;
        let mut out: Vec<PageFlush> = Vec::new();
        assert(p0.dom() =~= m0.dom());
        assert(self.buffers@.dom() =~= m0.dom().difference(Set::empty()));
        let ghost mut done: Set<u64> = Set::empty();
        loop
            invariant
                self.wf(),
                p0 == old(self).pending(),
                m0 == old(self).buffers@,
                p0.dom() == m0.dom(),
                m0.dom().finite(),
                done.finite(),
                done.subset_of(m0.dom()),
                self.buffers@ == m0.remove_keys(done),
                out@.len() == done.len(),
                forall|i: int|
                    0 <= i < out@.len() ==> done.contains((#[trigger] out@[i]).page_id)
                        && records_view(out@[i].records@) == p0[out@[i].page_id],
                forall|i: int, j: int|
                    0 <= i < j < out@.len() ==> (#[trigger] out@[i]).page_id != (
                    #[trigger] out@[j]).page_id,
            decreases m0.dom().len() - done.len(),
        {
            match first_page(&self.buffers) {
                Some(p) => {
                    let ghost mid = self.buffers@;
                    let mut b = self.buffers.remove(&p).unwrap();
                    let ghost rs = records_view(b.records@);
                    let records = b.take();
                    let ghost before = out@;
                    out.push(PageFlush { page_id: p, records });
                    proof {
                        assert(!done.contains(p));
                        assert(m0.contains_key(p) && p0[p] == rs);
                        let d2 = done.insert(p);
                        assert(self.buffers@ =~= m0.remove_keys(d2));
                        assert(d2.subset_of(m0.dom()));
                        vstd::set_lib::lemma_len_subset(d2, m0.dom());
                        done = d2;
                        assert forall|i: int, j: int| 0 <= i < j < out@.len() implies (
                        #[trigger] out@[i]).page_id != (#[trigger] out@[j]).page_id by {
                            assert(out@[i] == before[i]);
                            if j < before.len() {
                                assert(out@[j] == before[j]);
                            }
                        }
                    }
                },
                None => {
                    proof {
                        assert(done =~= m0.dom()) by {
                            assert forall|x: u64| m0.dom().contains(x) implies done.contains(x) by {
                                if !done.contains(x) {
                                    assert(self.buffers@.contains_key(x));
                                }
                            }
                        }
                        assert(self.pending() =~= Map::<u64, Seq<RecordFields>>::empty());
                    }
                    return out;
                },
            }
        }
    }
}

fn first_page(m: &BTreeMap<u64, ReplayBuffer>) -> (r: Option<u64>)
    ensures
        match r {
            Some(p) => m@.contains_key(p),
            None => m@ == Map::<u64, ReplayBuffer>::empty(),
        },
{
    let ghost pairs = vstd::std_specs::iter::IteratorSpec::remaining(
        &vstd::std_specs::btree::spec_btree_map_iter(m),
    );
    for (k, v) in it: m.iter()
        invariant
            it.seq() == pairs,
            it.index() == 0,
            forall|i: int| 0 <= i < pairs.len() ==> m@.contains_key(*(#[trigger] pairs[i]).0),
    {
        assert(*pairs[0].0 == *k);
        return Some(*k);
    }
    proof {
        assert forall|x: u64| !m@.contains_key(x) by {
            if m@.contains_key(x) {
                assert(pairs.contains((&x, &m@[x])));
            }
        }
        assert(m@ =~= Map::empty());
    }
    None
}

/// What page `p` gets of the records that were handed out.
pub open spec fn flushed_of(out: Seq<(u64, Seq<RecordFields>)>, p: u64) -> Seq<RecordFields>
    decreases out.len(),
{
    if out.len() == 0 {
        seq![]
    } else if out.last().0 == p {
        flushed_of(out.drop_last(), p) + out.last().1
    } else {
        flushed_of(out.drop_last(), p)
    }
}

/// Everything that came for page `p`: what was handed out, then what waits.
pub open spec fn page_stream(q: QueueState, p: u64) -> Seq<RecordFields> {
    flushed_of(q.out, p) + pending_of(q.pending, p)
}

/// The records of a batch that page `p` is to get.
pub open spec fn accepted(rs: Seq<RecordFields>, last: u64, i: int, p: u64) -> Seq<RecordFields>
    decreases rs.len() - i,
{
    if i >= rs.len() {
        seq![]
    } else if rs[i].lsn <= last {
        accepted(rs, last, i + 1, p)
    } else if rs[i].lsn != last + 1 {
        seq![]
    } else if is_txn_op(rs[i].op) || rs[i].page_id != p {
        accepted(rs, rs[i].lsn, i + 1, p)
    } else {
        seq![rs[i]] + accepted(rs, rs[i].lsn, i + 1, p)
    }
}

proof fn lemma_step_stream(q: QueueState, r: RecordFields, p: u64)
    ensures
        page_stream(queue_step(q, r), p) == page_stream(q, p) + (if r.page_id == p {
            seq![r]
        } else {
            seq![]
        }),
{
    let rs = pending_of(q.pending, r.page_id).push(r);
    let q2 = queue_step(q, r);
    if buffered_bytes(rs) >= REPLAY_FLUSH_BYTES {
        assert(q2.out.drop_last() =~= q.out);
    }
    assert(page_stream(q2, p) =~= page_stream(q, p) + (if r.page_id == p {
        seq![r]
    } else {
        seq![]
    }));
}

/// No record of a batch is lost, doubled or put out of order: what a page was
/// handed and what waits for it are what was there before and then its records
/// of the batch.
pub proof fn law_replay_keeps_records(
    q: QueueState,
    rs: Seq<RecordFields>,
    last: u64,
    i: int,
    p: u64,
)
    requires
        0 <= i <= rs.len(),
    ensures
        page_stream(queue_run(q, rs, last, i), p) == page_stream(q, p) + accepted(rs, last, i, p),
    decreases rs.len() - i,
{
    if i >= rs.len() {
        assert(page_stream(q, p) + Seq::<RecordFields>::empty() =~= page_stream(q, p));
    } else if rs[i].lsn <= last {
        law_replay_keeps_records(q, rs, last, i + 1, p);
    } else if rs[i].lsn != last + 1 {
        assert(page_stream(q, p) + Seq::<RecordFields>::empty() =~= page_stream(q, p));
    } else if is_txn_op(rs[i].op) {
        law_replay_keeps_records(q, rs, rs[i].lsn, i + 1, p);
    } else {
        let q2 = queue_step(q, rs[i]);
        lemma_step_stream(q, rs[i], p);
        law_replay_keeps_records(q2, rs, rs[i].lsn, i + 1, p);
        let more = accepted(rs, rs[i].lsn, i + 1, p);
        if rs[i].page_id == p {
            assert(page_stream(q, p) + seq![rs[i]] + more =~= page_stream(q, p) + (seq![rs[i]]
                + more));
        } else {
            assert(page_stream(q, p) + Seq::<RecordFields>::empty() =~= page_stream(q, p));
        }
    }
}

/// Whether a log record is still to be applied to its page when a log is read
/// back, after everything up to `last_applied` was applied.
pub fn needs_replay(record: &WalRecord, last_applied: u64) -> (r: bool)
    ensures
        r == (record.lsn > last_applied && !is_txn_op(record.op)),
{
    record.lsn > last_applied && !txn_op(record.op)
}

/// What applying a record needs of a page.
pub open spec fn record_ready(s: Seq<u8>, r: RecordFields) -> bool {
    &&& s.len() == PAGE_SIZE
    &&& r.op == WAL_OP_PAGE_PUT && is_key(r.key) && r.value.len() == VALUE_SIZE ==> insertable_at(
        s,
        r.slot_id as int,
    )
    &&& r.op == WAL_OP_PAGE_DEL ==> slot_id_fits(r.slot_id as int)
}

/// Whether a record can be handed to its page; see `record_ready`.
pub fn can_apply(page: &[u8], record: &WalRecord) -> (r: bool)
    ensures
        r == record_ready(page@, record@),
{
    if page.len() != PAGE_SIZE {
        return false;
    }
    if record.op == WAL_OP_PAGE_PUT && record.key.len() == KEY_SIZE && record.value.len()
        == VALUE_SIZE {
        return takes_slot(page, record.slot_id);
    }
    if record.op == WAL_OP_PAGE_DEL {
        return slot_is_inside(record.slot_id);
    }
    true
}

/// The outcome `x` and the page `t` of applying a record to page `s`.
pub open spec fn record_applied(s: Seq<u8>, r: RecordFields, x: Result<()>, t: Seq<u8>) -> bool {
    if r.op == WAL_OP_PAGE_IMAGE {
        if r.value.len() != PAGE_SIZE {
            &&& x matches Err(Error::InvalidPageSize(a, b)) && a == r.value.len() && b == PAGE_SIZE
            &&& t == s
        } else {
            x is Ok && t == r.value
        }
    } else if r.op == WAL_OP_PAGE_PUT {
        slot_insert(s, r.slot_id as int, r.key, r.value, x, t)
    } else if r.op == WAL_OP_PAGE_DEL {
        x is Ok && t == with_slot(s, r.slot_id as int, 0, 0)
    } else {
        x is Ok && t == s
    }
}

/// The page after a record, `None` when the record cannot be applied.
pub open spec fn page_after(s: Seq<u8>, r: RecordFields) -> Option<Seq<u8>> {
    if r.op == WAL_OP_PAGE_IMAGE {
        if r.value.len() == PAGE_SIZE {
            Some(r.value)
        } else {
            None
        }
    } else if r.op == WAL_OP_PAGE_PUT {
        let i = r.slot_id as int;
        if !is_key(r.key) || r.value.len() != VALUE_SIZE {
            None
        } else if slot_holds(s, i, r.key) {
            Some(splice(s, slot_pos(s, i) + KEY_SIZE, r.value))
        } else if i < slots_of(s) && slot_len(s, i) != 0 {
            None
        } else if free_bytes(s) < needed_at(s, i) {
            None
        } else {
            Some(placed_at(s, i, r.key, r.value))
        }
    } else if r.op == WAL_OP_PAGE_DEL {
        Some(with_slot(s, r.slot_id as int, 0, 0))
    } else {
        Some(s)
    }
}

/// Applies one record to its page.
pub fn apply_wal_record(page: &mut Vec<u8>, record: &WalRecord) -> (r: Result<()>)
    requires
        record_ready(old(page)@, record@),
    ensures
        record_applied(old(page)@, record@, r, final(page)@),
        match page_after(old(page)@, record@) {
            Some(t) => r is Ok && final(page)@ == t,
            None => r is Err && final(page)@ == old(page)@,
        },
{
    if record.op == WAL_OP_PAGE_IMAGE {
        if record.value.len() != PAGE_SIZE {
            return Err(Error::InvalidPageSize(record.value.len(), PAGE_SIZE));
        }
        *page = copy_bytes(record.value.as_slice());
        Ok(())
    } else if record.op == WAL_OP_PAGE_PUT {
        insert_record_at_slot_checked(
            page,
            record.slot_id,
            record.key.as_slice(),
            record.value.as_slice(),
        )
    } else if record.op == WAL_OP_PAGE_DEL {
        clear_slot(page, record.slot_id);
        Ok(())
    } else {
        Ok(())
    }
}

/// The page after the first `n` records, `None` when one of them cannot be applied.
pub open spec fn page_after_all(s: Seq<u8>, rs: Seq<RecordFields>, n: int) -> Option<Seq<u8>>
    decreases n,
{
    if n <= 0 {
        Some(s)
    } else {
        match page_after_all(s, rs, n - 1) {
            Some(t) => page_after(t, rs[n - 1]),
            None => None,
        }
    }
}

/// Record `i` is the first that cannot be applied.
pub open spec fn stuck_at(s: Seq<u8>, rs: Seq<RecordFields>, i: int) -> bool {
    &&& 0 <= i < rs.len()
    &&& page_after_all(s, rs, i) is Some
    &&& page_after_all(s, rs, i + 1) is None
}

/// What applying records needs: each finds a page that it can be applied to.
pub open spec fn records_ready(s: Seq<u8>, rs: Seq<RecordFields>) -> bool {
    forall|i: int|
        0 <= i < rs.len() ==> (#[trigger] page_after_all(s, rs, i) matches Some(t)
            ==> record_ready(t, rs[i]))
}

/// The greatest LSN among the first `n` records, at least zero.
pub open spec fn greatest_lsn(rs: Seq<RecordFields>, n: int) -> int
    decreases n,
{
    if n <= 0 {
        0
    } else if rs[n - 1].lsn > greatest_lsn(rs, n - 1) {
        rs[n - 1].lsn as int
    } else {
        greatest_lsn(rs, n - 1)
    }
}

/// Applies records to a page one after another and returns the greatest LSN.
/// When one cannot be applied, its error is returned, and the page is as the records
/// before it left it.
pub fn replay_page_records(page: &mut Vec<u8>, records: &Vec<WalRecord>) -> (r: Result<u64>)
    requires
        records_ready(old(page)@, records_view(records@)),
    ensures
        match page_after_all(old(page)@, records_view(records@), records@.len() as int) {
            Some(t) => {
                &&& r matches Ok(lsn) && lsn == greatest_lsn(
                    records_view(records@),
                    records@.len() as int,
                )
                &&& final(page)@ == t
            },
            None => r matches Err(e) && exists|i: int| #[trigger]
                stuck_at(old(page)@, records_view(records@), i) && final(page)@ == page_after_all(
                    old(page)@,
                    records_view(records@),
                    i,
                )->0 && record_applied(
                    final(page)@,
                    records_view(records@)[i],
                    Err(e),
                    final(page)@,
                ),
        },
{
    let ghost s = page@;
    let ghost rs = records_view(records@);
    let n: usize = records.len();
    let mut max_lsn: u64 = 0;
    let mut i: usize = 0;
    while i < n
        invariant
            n == records@.len(),
            rs == records_view(records@),
            i <= n,
            records_ready(s, rs),
            page_after_all(s, rs, i as int) == Some(page@),
            max_lsn == greatest_lsn(rs, i as int),
            s == old(page)@,
        decreases n - i,
    {
        let rec = &records[i];
        assert(rs[i as int] == rec@);
        if rec.lsn > max_lsn {
            max_lsn = rec.lsn;
        }
        match apply_wal_record(page, rec) {
            Ok(()) => {},
            Err(e) => {
                proof {
                    assert(page_after_all(s, rs, i + 1) is None);
                    assert(stuck_at(s, rs, i as int));
                    lemma_stays_none(s, rs, i + 1, n as int);
                }
                return Err(e);
            },
        }
        i += 1;
    }
    Ok(max_lsn)
}

proof fn lemma_stays_none(s: Seq<u8>, rs: Seq<RecordFields>, i: int, n: int)
    requires
        0 <= i <= n,
        page_after_all(s, rs, i) is None,
    ensures
        page_after_all(s, rs, n) is None,
    decreases n,
{
    if i < n {
        lemma_stays_none(s, rs, i, n - 1);
    }
}

/// Replaying page images leaves the last of them, whatever the page held before.
pub proof fn law_last_image_wins(s: Seq<u8>, rs: Seq<RecordFields>, n: int)
    requires
        0 < n <= rs.len(),
        forall|i: int|
            0 <= i < n ==> (#[trigger] rs[i]).op == WAL_OP_PAGE_IMAGE && rs[i].value.len()
                == PAGE_SIZE,
    ensures
        page_after_all(s, rs, n) == Some(rs[n - 1].value),
    decreases n,
{
    if n > 1 {
        law_last_image_wins(s, rs, n - 1);
    } else {
        assert(page_after_all(s, rs, 0) == Some(s));
    }
}

/// A record that was logged for a slot is replayed into that slot, so that the
/// delete that was logged for it takes it out again; both leave a well-formed page.
pub proof fn law_delete_finds_its_record(s: Seq<u8>, put: RecordFields, del: RecordFields)
    requires
        page_wf(s),
        put.op == WAL_OP_PAGE_PUT,
        del.op == WAL_OP_PAGE_DEL,
        del.slot_id == put.slot_id,
        is_key(put.key),
        put.value.len() == VALUE_SIZE,
        put.slot_id < slots_of(s) ==> slot_len(s, put.slot_id as int) == 0,
        needed_at(s, put.slot_id as int) <= free_bytes(s),
    ensures
        ({
            let i = put.slot_id as int;
            let one = page_after(s, put);
            let two = page_after(one->0, del);
            &&& one is Some
            &&& page_wf(one->0)
            &&& slot_holds(one->0, i, put.key)
            &&& two is Some
            &&& page_wf(two->0)
            &&& slot_len(two->0, i) == 0
            &&& !slot_holds(two->0, i, put.key)
        }),
{
    let i = put.slot_id as int;
    law_place_keeps_other_slots(s, i, put.key, put.value);
    let t = placed_at(s, i, put.key, put.value);
    law_clear_keeps_other_slots(t, i);
    lemma_with_slot(t, i, 0, 0);
}

/// A record for page `p`, which concerns no transaction.
spec fn for_page(p: u64) -> spec_fn(RecordFields) -> bool {
    |r: RecordFields| r.page_id == p && r.op != 21 && r.op != 22 && r.op != 23
}

proof fn lemma_accepted(rs: Seq<RecordFields>, last: u64, i: int, p: u64)
    requires
        0 <= i <= rs.len(),
        forall|j: int| i <= j < rs.len() ==> (#[trigger] rs[j]).lsn == last + 1 + (j - i),
    ensures
        accepted(rs, last, i, p) == rs.skip(i).filter(for_page(p)),
    decreases rs.len() - i,
{
    let f = for_page(p);
    if i < rs.len() {
        let one = seq![rs[i]];
        let rest = rs.skip(i + 1);
        lemma_accepted(rs, rs[i].lsn, i + 1, p);
        assert(rs.skip(i) =~= one + rest);
        Seq::filter_distributes_over_add(one, rest, f);
        assert(one.filter(f) == (if f(rs[i]) {
            one
        } else {
            seq![]
        })) by {
            reveal(Seq::filter);
            assert(one.drop_last() =~= Seq::<RecordFields>::empty());
            assert(one.drop_last().filter(f) =~= Seq::<RecordFields>::empty());
            assert(one.filter(f) =~= (if f(rs[i]) {
                one
            } else {
                seq![]
            }));
        }
        if !f(rs[i]) {
            assert(Seq::<RecordFields>::empty() + rest.filter(f) =~= rest.filter(f));
        }
    } else {
        reveal(Seq::filter);
        assert(rs.skip(i) =~= Seq::<RecordFields>::empty());
    }
}

proof fn lemma_skips_applied(rs: Seq<RecordFields>, last: u64, i: int, k: int, p: u64)
    requires
        0 <= i <= k <= rs.len(),
        forall|j: int| i <= j < k ==> (#[trigger] rs[j]).lsn <= last,
    ensures
        accepted(rs, last, i, p) == accepted(rs, last, k, p),
    decreases k - i,
{
    if i < k {
        lemma_skips_applied(rs, last, i + 1, k, p);
    }
}

/// Of a batch with LSNs one after the other, a page is handed exactly its own records
/// that were not applied yet, in order; records of transactions go to no page. A batch
/// that was applied before gives nothing, and neither does one that leaves a gap.
///
/// The first `k` records were applied before.
pub proof fn law_replay_takes_what_is_new(rs: Seq<RecordFields>, last: u64, k: int, p: u64)
    requires
        0 <= k <= rs.len(),
        forall|j: int| 0 <= j < k ==> (#[trigger] rs[j]).lsn <= last,
    ensures
        (forall|j: int| k <= j < rs.len() ==> (#[trigger] rs[j]).lsn == last + 1 + (j - k))
            ==> accepted(rs, last, 0, p) == rs.skip(k).filter(
            |r: RecordFields| r.page_id == p && r.op != 21 && r.op != 22 && r.op != 23,
        ),
        k == rs.len() ==> accepted(rs, last, 0, p).len() == 0,
        k < rs.len() && rs[k].lsn > last + 1 ==> accepted(rs, last, 0, p).len() == 0,
{
    lemma_skips_applied(rs, last, 0, k, p);
    if forall|j: int| k <= j < rs.len() ==> (#[trigger] rs[j]).lsn == last + 1 + (j - k) {
        lemma_accepted(rs, last, k, p);
        let g = |r: RecordFields| r.page_id == p && r.op != 21 && r.op != 22 && r.op != 23;
        assert(g =~= for_page(p));
    }
}

/// Records are held back only until they count for a flush: what waits for a page after
/// a record came counts for less than 8192 bytes, each record for 32 bytes and its key
/// and value.
pub proof fn law_flush_threshold(q: QueueState, r: RecordFields)
    ensures
        buffered_bytes(seq![]) == 0,
        forall|rs: Seq<RecordFields>| #[trigger]
            buffered_bytes(rs.push(r)) == buffered_bytes(rs) + r.key.len() + r.value.len() + 32,
        buffered_bytes(pending_of(queue_step(q, r).pending, r.page_id)) < 8192,
        ({
            let all = pending_of(q.pending, r.page_id).push(r);
            let after = queue_step(q, r);
            if buffered_bytes(all) < 8192 {
                after.out == q.out && pending_of(after.pending, r.page_id) == all
            } else {
                after.out == q.out.push((r.page_id, all)) && pending_of(
                    after.pending,
                    r.page_id,
                ).len() == 0
            }
        }),
{
    assert forall|rs: Seq<RecordFields>| #[trigger] buffered_bytes(rs.push(r)) == buffered_bytes(rs)
        + r.key.len() + r.value.len() + 32 by {
        assert(rs.push(r).drop_last() =~= rs);
    }
}

/// Replaying goes record by record: the records of a page can be applied in two parts.
pub proof fn law_replay_in_parts(s: Seq<u8>, a: Seq<RecordFields>, b: Seq<RecordFields>, n: int)
    requires
        0 <= n <= b.len(),
    ensures
        page_after_all(s, a + b, a.len() + n) == match page_after_all(s, a, a.len() as int) {
            Some(t) => page_after_all(t, b, n),
            None => None,
        },
        page_after_all(s, seq![], 0) == Some(s),
    decreases n,
{
    if n > 0 {
        law_replay_in_parts(s, a, b, n - 1);
        assert((a + b)[a.len() + n - 1] == b[n - 1]);
    } else {
        lemma_replay_prefix(s, a, b, a.len() as int);
    }
}

proof fn lemma_replay_prefix(s: Seq<u8>, a: Seq<RecordFields>, b: Seq<RecordFields>, n: int)
    requires
        0 <= n <= a.len(),
    ensures
        page_after_all(s, a + b, n) == page_after_all(s, a, n),
    decreases n,
{
    if n > 0 {
        lemma_replay_prefix(s, a, b, n - 1);
        assert((a + b)[n - 1] == a[n - 1]);
    }
}

/// What one record does to a well-formed page: an image replaces the page; a put leaves
/// its key and value in its slot, be the slot new, empty, or that of the same key, and
/// is refused where the slot holds another key; a delete empties the slot; and a record
/// of a transaction does nothing.
pub proof fn law_record_does_what_it_says(s: Seq<u8>, r: RecordFields)
    requires
        page_wf(s),
    ensures
        r.op == 1 && r.value.len() == 16384 ==> page_after(s, r) == Some(r.value),
        r.op == 1 && r.value.len() != 16384 ==> page_after(s, r) is None,
        r.op == 11 ==> (page_after(s, r) matches Some(t) ==> {
            &&& crate::slotted_page::record_of(t, r.slot_id as int, r.key) matches Some(p)
            &&& crate::slotted_page::value_at(t, p) == r.value
        }),
        r.op == 11 && r.slot_id < slots_of(s) && slot_len(s, r.slot_id as int) != 0 && !slot_holds(
            s,
            r.slot_id as int,
            r.key,
        ) ==> page_after(s, r) is None,
        r.op == 12 && slot_id_fits(r.slot_id as int) ==> (page_after(s, r) matches Some(t)
            && slot_len(t, r.slot_id as int) == 0),
        r.op == 21 || r.op == 22 || r.op == 23 ==> page_after(s, r) == Some(s),
{
    let i = r.slot_id as int;
    if r.op == 11 && page_after(s, r) is Some {
        if slot_holds(s, i, r.key) {
            let p = slot_pos(s, i);
            let t = splice(s, p + KEY_SIZE, r.value);
            assert(free_end_slot(s, i) <= p);
            assert(t.subrange(p, p + KEY_SIZE) =~= s.subrange(p, p + KEY_SIZE));
            assert(t.subrange(p + KEY_SIZE, p + KEY_SIZE + VALUE_SIZE) =~= r.value);
            assert(slot_len(t, i) == slot_len(s, i) && slot_pos(t, i) == slot_pos(s, i));
        } else {
            law_place_keeps_other_slots(s, i, r.key, r.value);
        }
    }
    if r.op == 12 && slot_id_fits(i) {
        lemma_with_slot(s, i, 0, 0);
    }
}

/// Where the directory entry of a slot ends.
spec fn free_end_slot(s: Seq<u8>, i: int) -> int {
    crate::slotted_page::dir_at(i) + crate::slotted_page::SLOT_ENTRY_SIZE
}

/// The LSN that a replay reports bounds its records: no record has a later one, and one
/// has it.
pub proof fn law_replayed_lsn_bounds_records(rs: Seq<RecordFields>, n: int)
    requires
        0 <= n <= rs.len(),
    ensures
        forall|i: int| 0 <= i < n ==> (#[trigger] rs[i]).lsn <= greatest_lsn(rs, n),
        n > 0 ==> exists|i: int| 0 <= i < n && (#[trigger] rs[i]).lsn == greatest_lsn(rs, n),
        n == 0 ==> greatest_lsn(rs, n) == 0,
    decreases n,
{
    if n > 0 {
        law_replayed_lsn_bounds_records(rs, n - 1);
        if rs[n - 1].lsn == greatest_lsn(rs, n) {
            assert(0 <= n - 1 < n && rs[n - 1].lsn == greatest_lsn(rs, n));
        } else {
            let i = choose|i: int|
                0 <= i < n - 1 && (#[trigger] rs[i]).lsn == greatest_lsn(rs, n - 1);
            assert(0 <= i < n && rs[i].lsn == greatest_lsn(rs, n));
        }
    }
}

} // verus!
