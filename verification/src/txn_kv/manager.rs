//! Transactions with snapshot reads; the first of two writers of a row wins.
use vstd::prelude::*;

use super::codec::{copy_value, decode_snapshot, encode_payload, encode_snapshot, first_long,
    history_after_commits, history_after_ops, is_corrupt, is_fault, newest_ts, newest_values,
    ops_ok, ops_view, parse_snapshot, payload_bytes, record_bytes, replay_wal_with_base,
    snapshot_bytes, value_fields, value_ok, versions_view, wal_commits, wal_record, Key, OpFields, TxnStore,
    Version, VersionFields, WriteSet, crc32_of};
use super::error::{Result, TxnError};
use crate::common::{bytes_view, page_from_vec, Value, KEY_SIZE, VALUE_SIZE};
use crate::key_map::{key_array, key_place, lemma_place, KeyMap};
use crate::key_order::{bytes_lt, lex_lt};
use crate::layout::{bytes_eq, copy_bytes};
use bytes::Bytes;

verus! {

/// The committed state, and the timestamp of the last commit.
#[derive(Debug)]
pub struct TxnManager {
    pub store: TxnStore,
    pub commit_ts: u64,
}

/// A transaction: what it reads is as of `read_ts`, with its own writes on top.
#[derive(Debug)]
pub struct Txn {
    pub read_ts: u64,
    /// Nanoseconds after which the transaction is over.
    pub timeout: Option<u128>,
    pub write_set: WriteSet,
    pub read_only: bool,
}

/// What is left to do for a commit.
#[derive(Debug)]
pub enum CommitStep {
    /// There was nothing to write.
    Done(u64),
    /// The record has to become durable before the writes are taken in.
    Append { commit_ts: u64, record: Vec<u8> },
}

/// The value of a row in a snapshot.
pub open spec fn read_at(h: Seq<VersionFields>, read_ts: u64) -> Option<Seq<u8>>
    decreases h.len(),
{
    if h.len() == 0 {
        None
    } else if h.last().commit_ts <= read_ts {
        h.last().value
    } else {
        read_at(h.drop_last(), read_ts)
    }
}

/// Between the bounds of a scan.
pub open spec fn between(k: Seq<u8>, start: Seq<u8>, end: Seq<u8>) -> bool {
    !lex_lt(k, start) && lex_lt(k, end)
}

/// Checks the length of a key.
pub fn parse_key(key: &[u8]) -> (r: Result<Key>)
    ensures
        if key@.len() != KEY_SIZE {
            r matches Err(TxnError::InvalidKeySize(a, b)) && a == key@.len() && b == KEY_SIZE
        } else {
            r matches Ok(k) && k@ == key@
        },
{
    if key.len() != KEY_SIZE {
        return Err(TxnError::InvalidKeySize(key.len(), KEY_SIZE));
    }
    let k = key_array(key, 0);
    assert(k@ =~= key@);
    Ok(k)
}

/// The value of a row in a snapshot.
fn value_at<'a>(versions: &'a Vec<Version>, read_ts: u64) -> (r: Option<&'a Value>)
    ensures
        match r {
            Some(v) => read_at(versions_view(versions@), read_ts) == Some(v@),
            None => read_at(versions_view(versions@), read_ts) is None,
        },
{
    let ghost h = versions_view(versions@);
    let mut n: usize = versions.len();
    assert(h.take(n as int) =~= h);
    while n > 0
        invariant
            n <= versions@.len(),
            h == versions_view(versions@),
            read_at(h, read_ts) == read_at(h.take(n as int), read_ts),
        decreases n,
    {
        assert(h.take(n as int).last() == versions@[n - 1]@);
        assert(h.take(n as int).drop_last() =~= h.take(n - 1));
        if versions[n - 1].commit_ts <= read_ts {
            return match &versions[n - 1].value {
                Some(v) => Some(v),
                None => None,
            };
        }
        n -= 1;
    }
    None
}

impl TxnManager {
    pub open spec fn wf(&self) -> bool {
        self.store.wf()
    }

    /// A manager over a store whose last commit was at `commit_ts`.
    pub fn new(store: TxnStore, commit_ts: u64) -> (r: TxnManager)
        ensures
            r.store == store,
            r.commit_ts == commit_ts,
    {
        TxnManager { store, commit_ts }
    }

    /// A transaction that only reads.
    pub fn begin_ro_timeout(&self, timeout_nanos: u128) -> (r: Txn)
        ensures
            r.begun(self.commit_ts, true, Some(timeout_nanos)),
    {
        self.begin_tx(true, Some(timeout_nanos))
    }

    /// A transaction that reads and writes.
    pub fn begin_rw_timeout(&self, timeout_nanos: u128) -> (r: Txn)
        ensures
            r.begun(self.commit_ts, false, Some(timeout_nanos)),
    {
        self.begin_tx(false, Some(timeout_nanos))
    }

    fn begin_tx(&self, read_only: bool, timeout: Option<u128>) -> (r: Txn)
        ensures
            r.begun(self.commit_ts, read_only, timeout),
    {
        Txn { read_ts: self.commit_ts, timeout, write_set: KeyMap::new(), read_only }
    }

    /// The bytes of a snapshot of the committed state.
    pub fn checkpoint(&self) -> (r: Result<Vec<u8>>)
        ensures
            ({
                let es = self.store.rows.entries@;
                let rows = newest_values(es, es.len() as int);
                if rows.len() > u32::MAX {
                    r matches Err(e) && is_corrupt(e, "too many snapshot entries"@)
                } else if ops_ok(rows) {
                    r matches Ok(b) && b@ == snapshot_bytes(self.commit_ts, rows)
                } else {
                    r matches Err(TxnError::InvalidValueSize(a, b)) && b == VALUE_SIZE && exists|i: int| #[trigger] first_long(rows, i) && a == rows[i].value->0.len()
                }
            }),
    {
        encode_snapshot(self.commit_ts, &self.store)
    }
}

/// Values that fit still fit when one that fits is put in.
proof fn lemma_values_fit(before: WriteSet, after: WriteSet, key: Seq<u8>)
    requires
        before.wf(),
        after.wf(),
        value_ok(value_fields(after.at(key))),
        forall|k: Seq<u8>| #[trigger] after.has(k) == (before.has(k) || k == key),
        forall|k: Seq<u8>|
            before.has(k) && k != key ==> #[trigger] after.at(k) == before.at(k),
    ensures
        ops_ok(ops_view(before.entries@)) ==> ops_ok(ops_view(after.entries@)),
{
    let a = before.entries@;
    let b = after.entries@;
    if ops_ok(ops_view(a)) {
        assert forall|i: int| 0 <= i < b.len() implies value_ok(
            (#[trigger] ops_view(b)[i]).value,
        ) by {
            let k = b[i].0@;
            lemma_place(b, i);
            assert(after.has(k));
            assert(after.at(k) == b[i].1);
            if k != key {
                assert(before.has(k));
                let p = key_place(a, k);
                assert(a[p].0@ == k);
                assert(value_ok(ops_view(a)[p].value));
            }
        }
    }
}

impl Txn {
    pub open spec fn wf(&self) -> bool {
        self.write_set.wf()
    }

    /// The transaction has just begun.
    pub open spec fn begun(&self, read_ts: u64, read_only: bool, timeout: Option<u128>) -> bool {
        &&& self.wf()
        &&& self.read_ts == read_ts
        &&& self.read_only == read_only
        &&& self.timeout == timeout
        &&& self.write_set.entries@.len() == 0
        &&& forall|k: Seq<u8>| !#[trigger] self.write_set.has(k)
    }

    pub open spec fn timed_out(&self, elapsed_nanos: u128) -> bool {
        self.timeout matches Some(t) && elapsed_nanos > t
    }

    /// The value of a row as the transaction sees it.
    pub open spec fn sees(&self, store: &TxnStore, k: Seq<u8>) -> Option<Seq<u8>> {
        if self.write_set.has(k) {
            value_fields(self.write_set.at(k))
        } else {
            read_at(store.history(k), self.read_ts)
        }
    }

    /// A row that the transaction writes was committed after its snapshot.
    pub open spec fn conflicts(&self, store: &TxnStore) -> bool {
        exists|k: Seq<u8>|
            self.write_set.has(k) && (#[trigger] store.history(k)).len() > 0 && store.history(
                k,
            ).last().commit_ts > self.read_ts
    }

    /// Everything but the writes is as it was.
    pub open spec fn same_txn(&self, other: &Txn) -> bool {
        self.read_ts == other.read_ts && self.timeout == other.timeout && self.read_only
            == other.read_only
    }

    /// Fails when the transaction has taken longer than it may.
    pub fn ensure_not_timed_out(&self, elapsed_nanos: u128) -> (r: Result<()>)
        ensures
            match r {
                Ok(_) => !self.timed_out(elapsed_nanos),
                Err(e) => self.timed_out(elapsed_nanos) && e is TxnTimeout,
            },
    {
        if let Some(t) = self.timeout {
            if elapsed_nanos > t {
                return Err(TxnError::TxnTimeout);
            }
        }
        Ok(())
    }

    pub fn read_ts(&self) -> (r: u64)
        ensures
            r == self.read_ts,
    {
        self.read_ts
    }

    /// The value of a row.
    pub fn get(&self, manager: &TxnManager, elapsed_nanos: u128, key: &[u8]) -> (r: Result<
        Option<Bytes>,
    >)
        requires
            self.wf(),
            manager.wf(),
        ensures
            if self.timed_out(elapsed_nanos) {
                r matches Err(e) && e is TxnTimeout
            } else if key@.len() != KEY_SIZE {
                r matches Err(TxnError::InvalidKeySize(a, b)) && a == key@.len() && b == KEY_SIZE
            } else {
                r matches Ok(v) && match v {
                    Some(b) => self.sees(&manager.store, key@) == Some(bytes_view(b)),
                    None => self.sees(&manager.store, key@) is None,
                }
            },
    {
        if let Err(e) = self.ensure_not_timed_out(elapsed_nanos) {
            return Err(e);
        }
        if let Err(e) = parse_key(key) {
            return Err(e);
        }
        if let Some(own) = self.write_set.get(key) {
            return match own {
                Some(v) => Ok(Some(page_from_vec(copy_bytes(v.as_slice())))),
                None => Ok(None),
            };
        }
        match manager.store.rows.get(key) {
            None => Ok(None),
            Some(versions) => match value_at(versions, self.read_ts) {
                Some(v) => Ok(Some(page_from_vec(copy_bytes(v.as_slice())))),
                None => Ok(None),
            },
        }
    }

    /// Writes a row.
    pub fn put(&mut self, elapsed_nanos: u128, key: &[u8], value: &[u8]) -> (r: Result<()>)
        requires
            old(self).wf(),
        ensures
            final(self).wf(),
            final(self).same_txn(old(self)),
            if old(self).timed_out(elapsed_nanos) {
                r matches Err(e) && e is TxnTimeout
            } else if key@.len() != KEY_SIZE {
                r matches Err(TxnError::InvalidKeySize(a, b)) && a == key@.len() && b == KEY_SIZE
            } else if value@.len() > VALUE_SIZE {
                r matches Err(TxnError::InvalidValueSize(a, b)) && a == value@.len() && b
                    == VALUE_SIZE
            } else {
                r is Ok
            },
            r is Err ==> *final(self) == *old(self),
            r is Ok ==> forall|store: &TxnStore, k: Seq<u8>| #[trigger]
                final(self).sees(store, k) == if k == key@ {
                    Some(value@)
                } else {
                    old(self).sees(store, k)
                },
            r is Ok ==> forall|k: Seq<u8>| #[trigger]
                final(self).write_set.has(k) == (old(self).write_set.has(k) || k == key@),
            ops_ok(ops_view(old(self).write_set.entries@)) ==> ops_ok(
                ops_view(final(self).write_set.entries@),
            ),
    {
        if let Err(e) = self.ensure_not_timed_out(elapsed_nanos) {
            return Err(e);
        }
        let k = match parse_key(key) {
            Ok(k) => k,
            Err(e) => {
                return Err(e);
            },
        };
        if value.len() > VALUE_SIZE {
            return Err(TxnError::InvalidValueSize(value.len(), VALUE_SIZE));
        }
        let ghost before = self.write_set;
        self.write_set.insert(k, Some(copy_bytes(value)));
        proof {
            lemma_values_fit(before, self.write_set, k@);
        }
        Ok(())
    }

    /// Deletes a row.
    pub fn delete(&mut self, elapsed_nanos: u128, key: &[u8]) -> (r: Result<()>)
        requires
            old(self).wf(),
        ensures
            final(self).wf(),
            final(self).same_txn(old(self)),
            if old(self).timed_out(elapsed_nanos) {
                r matches Err(e) && e is TxnTimeout
            } else if key@.len() != KEY_SIZE {
                r matches Err(TxnError::InvalidKeySize(a, b)) && a == key@.len() && b == KEY_SIZE
            } else {
                r is Ok
            },
            r is Err ==> *final(self) == *old(self),
            r is Ok ==> forall|store: &TxnStore, k: Seq<u8>| #[trigger]
                final(self).sees(store, k) == if k == key@ {
                    None
                } else {
                    old(self).sees(store, k)
                },
            r is Ok ==> forall|k: Seq<u8>| #[trigger]
                final(self).write_set.has(k) == (old(self).write_set.has(k) || k == key@),
            ops_ok(ops_view(old(self).write_set.entries@)) ==> ops_ok(
                ops_view(final(self).write_set.entries@),
            ),
    {
        if let Err(e) = self.ensure_not_timed_out(elapsed_nanos) {
            return Err(e);
        }
        let k = match parse_key(key) {
            Ok(k) => k,
            Err(e) => {
                return Err(e);
            },
        };
        let ghost before = self.write_set;
        self.write_set.insert(k, None);
        proof {
            lemma_values_fit(before, self.write_set, k@);
        }
        Ok(())
    }

    /// The rows from `start_inclusive` on and below `end_exclusive`, the first
    /// `limit` of them in key order.
    pub fn scan(
        &self,
        manager: &TxnManager,
        elapsed_nanos: u128,
        start_inclusive: &[u8],
        end_exclusive: &[u8],
        limit: usize,
    ) -> (r: Result<Vec<(Vec<u8>, Bytes)>>)
        requires
            self.wf(),
            manager.wf(),
            !self.timed_out(elapsed_nanos) && limit > 0 && start_inclusive@.len() == KEY_SIZE
                && end_exclusive@.len() == KEY_SIZE ==> !lex_lt(end_exclusive@, start_inclusive@),
        ensures
            if self.timed_out(elapsed_nanos) {
                r matches Err(e) && e is TxnTimeout
            } else if limit == 0 {
                r matches Ok(rows) && rows@.len() == 0
            } else if start_inclusive@.len() != KEY_SIZE {
                r matches Err(TxnError::InvalidKeySize(a, b)) && a == start_inclusive@.len() && b
                    == KEY_SIZE
            } else if end_exclusive@.len() != KEY_SIZE {
                r matches Err(TxnError::InvalidKeySize(a, b)) && a == end_exclusive@.len() && b
                    == KEY_SIZE
            } else {
                r matches Ok(rows) && self.is_scan(
                    &manager.store,
                    start_inclusive@,
                    end_exclusive@,
                    limit as int,
                    rows@,
                )
            },
    {
        if let Err(e) = self.ensure_not_timed_out(elapsed_nanos) {
            return Err(e);
        }
        let mut out: Vec<(Vec<u8>, Bytes)> = Vec::new();
        if limit == 0 {
            return Ok(out);
        }
        if let Err(e) = parse_key(start_inclusive) {
            return Err(e);
        }
        if let Err(e) = parse_key(end_exclusive) {
            return Err(e);
        }
        if bytes_eq(start_inclusive, end_exclusive) {
            return Ok(out);
        }
        let merged = self.merged(&manager.store, start_inclusive, end_exclusive);
        let n: usize = merged.entries.len();
        let mut i: usize = 0;
        while i < n && i < limit
            invariant
                merged.wf(),
                n == merged.entries@.len(),
                i <= n,
                i <= limit,
                out@.len() == i,
                forall|j: int|
                    0 <= j < i ==> (#[trigger] out@[j]).0@ == merged.entries@[j].0@ && bytes_view(
                        out@[j].1,
                    ) == merged.entries@[j].1@,
            decreases n - i,
        {
            let key = copy_bytes(merged.entries[i].0.as_slice());
            let value = page_from_vec(copy_bytes(merged.entries[i].1.as_slice()));
            out.push((key, value));
            i += 1;
        }
        proof {
            let es = merged.entries@;
            let store = &manager.store;
            assert forall|j: int, l: int| 0 <= j < l < out@.len() implies lex_lt(
                (#[trigger] out@[j]).0@,
                (#[trigger] out@[l]).0@,
            ) by {
                assert(lex_lt(es[j].0@, es[l].0@));
            }
            assert forall|j: int| 0 <= j < out@.len() implies between(
                (#[trigger] out@[j]).0@,
                start_inclusive@,
                end_exclusive@,
            ) && self.sees(store, out@[j].0@) == Some(bytes_view(out@[j].1)) by {
                lemma_place(es, j);
                assert(merged.has(es[j].0@));
                assert(merged.at(es[j].0@) == es[j].1);
                assert(out@[j].0@ == es[j].0@);
            }
            assert forall|k: Seq<u8>|
                between(k, start_inclusive@, end_exclusive@) && (#[trigger] self.sees(
                    store,
                    k,
                )) is Some implies (out@.len() == limit && lex_lt(out@.last().0@, k)) || exists|j: int|
                0 <= j < out@.len() && (#[trigger] out@[j]).0@ == k by {
                assert(merged.has(k));
                let p = key_place(es, k);
                assert(es[p].0@ == k);
                if p < i {
                    assert(out@[p].0@ == k);
                } else {
                    assert(lex_lt(es[i - 1].0@, es[p].0@));
                }
            }
        }
        Ok(out)
    }

    /// `rows` are the first `limit` rows between the bounds.
    pub open spec fn is_scan(
        &self,
        store: &TxnStore,
        start: Seq<u8>,
        end: Seq<u8>,
        limit: int,
        rows: Seq<(Vec<u8>, Bytes)>,
    ) -> bool {
        &&& rows.len() <= limit
        &&& forall|i: int, j: int|
            0 <= i < j < rows.len() ==> lex_lt((#[trigger] rows[i]).0@, (#[trigger] rows[j]).0@)
        &&& forall|i: int|
            0 <= i < rows.len() ==> between((#[trigger] rows[i]).0@, start, end) && self.sees(
                store,
                rows[i].0@,
            ) == Some(bytes_view(rows[i].1))
        &&& forall|k: Seq<u8>|
            between(k, start, end) && (#[trigger] self.sees(store, k)) is Some ==> (rows.len()
                == limit && lex_lt(rows.last().0@, k)) || exists|j: int|
                0 <= j < rows.len() && (#[trigger] rows[j]).0@ == k
    }

    /// The rows between the bounds: the snapshot with the transaction's own
    /// writes on top.
    fn merged(&self, store: &TxnStore, start: &[u8], end: &[u8]) -> (r: KeyMap<Value>)
        requires
            self.wf(),
            store.wf(),
        ensures
            r.wf(),
            forall|k: Seq<u8>| #[trigger]
                r.has(k) == (between(k, start@, end@) && self.sees(store, k) is Some),
            forall|k: Seq<u8>|
                r.has(k) ==> self.sees(store, k) == Some((#[trigger] r.at(k))@),
    {
        let mut merged: KeyMap<Value> = KeyMap::new();
        let ghost es = store.rows.entries@;
        let ghost ws = self.write_set.entries@;
        let n: usize = store.rows.entries.len();
        let mut i: usize = 0;
        while i < n
            invariant
                self.wf(),
                store.wf(),
                es == store.rows.entries@,
                n == es.len(),
                i <= n,
                merged.wf(),
                forall|k: Seq<u8>| #[trigger]
                    merged.has(k) == (store.rows.has(k) && key_place(es, k) < i && between(
                        k,
                        start@,
                        end@,
                    ) && !self.write_set.has(k) && self.sees(store, k) is Some),
                forall|k: Seq<u8>|
                    merged.has(k) ==> self.sees(store, k) == Some((#[trigger] merged.at(k))@),
            decreases n - i,
        {
            let key = store.rows.entries[i].0;
            let ghost before = merged;
            proof {
                lemma_place(es, i as int);
                assert forall|k: Seq<u8>| store.rows.has(k) && key_place(es, k) == i implies k
                    == key@ by {
                    assert(es[key_place(es, k)].0@ == k);
                }
            }
            let inside = !bytes_lt(key.as_slice(), start) && bytes_lt(key.as_slice(), end);
            if inside && self.write_set.get(key.as_slice()).is_none() {
                if let Some(v) = value_at(&store.rows.entries[i].1, self.read_ts) {
                    let copy = copy_bytes(v.as_slice());
                    let ghost bytes = copy@;
                    assert(self.sees(store, key@) == Some(bytes));
                    merged.insert(key, copy);
                    assert forall|k: Seq<u8>| merged.has(k) implies self.sees(store, k) == Some(
                        (#[trigger] merged.at(k))@,
                    ) by {
                        if k != key@ {
                            assert(before.has(k));
                            assert(merged.at(k) == before.at(k));
                        }
                    }
                }
            }
            i += 1;
        }
        let m: usize = self.write_set.entries.len();
        let mut j: usize = 0;
        while j < m
            invariant
                self.wf(),
                store.wf(),
                ws == self.write_set.entries@,
                m == ws.len(),
                j <= m,
                merged.wf(),
                forall|k: Seq<u8>| #[trigger]
                    merged.has(k) == (between(k, start@, end@) && self.sees(store, k) is Some && (
                    !self.write_set.has(k) || key_place(ws, k) < j)),
                forall|k: Seq<u8>|
                    merged.has(k) ==> self.sees(store, k) == Some((#[trigger] merged.at(k))@),
            decreases m - j,
        {
            let key = self.write_set.entries[j].0;
            let ghost before = merged;
            proof {
                lemma_place(ws, j as int);
                assert forall|k: Seq<u8>| self.write_set.has(k) && key_place(ws, k) == j implies k
                    == key@ by {
                    assert(ws[key_place(ws, k)].0@ == k);
                }
            }
            let inside = !bytes_lt(key.as_slice(), start) && bytes_lt(key.as_slice(), end);
            if inside {
                let value = copy_value(&self.write_set.entries[j].1);
                assert(self.sees(store, key@) == value_fields(value));
                if let Some(copy) = value {
                    merged.insert(key, copy);
                    assert forall|k: Seq<u8>| merged.has(k) implies self.sees(store, k) == Some(
                        (#[trigger] merged.at(k))@,
                    ) by {
                        if k != key@ {
                            assert(before.has(k));
                            assert(merged.at(k) == before.at(k));
                        }
                    }
                }
            }
            j += 1;
        }
        merged
    }

    /// Whether a row that the transaction writes was committed after its
    /// snapshot.
    fn has_conflict(&self, store: &TxnStore) -> (r: bool)
        requires
            self.wf(),
            store.wf(),
        ensures
            r == self.conflicts(store),
    {
        let ghost ws = self.write_set.entries@;
        let n: usize = self.write_set.entries.len();
        let mut i: usize = 0;
        while i < n
            invariant
                self.wf(),
                store.wf(),
                ws == self.write_set.entries@,
                n == ws.len(),
                i <= n,
                forall|j: int|
                    0 <= j < i ==> {
                        let h = store.history((#[trigger] ws[j]).0@);
                        h.len() == 0 || h.last().commit_ts <= self.read_ts
                    },
            decreases n - i,
        {
            if let Some(versions) = store.rows.get(self.write_set.entries[i].0.as_slice()) {
                let len: usize = versions.len();
                if len > 0 && versions[len - 1].commit_ts > self.read_ts {
                    proof {
                        let k = ws[i as int].0@;
                        lemma_place(ws, i as int);
                        assert(store.history(k).last() == versions@[len - 1]@);
                        assert(self.conflicts(store));
                    }
                    return true;
                }
                assert(len > 0 ==> store.history(ws[i as int].0@).last() == versions@[len - 1]@);
            }
            i += 1;
        }
        proof {
            if self.conflicts(store) {
                let k = choose|k: Seq<u8>|
                    self.write_set.has(k) && (#[trigger] store.history(k)).len() > 0
                        && store.history(k).last().commit_ts > self.read_ts;
                let p = key_place(ws, k);
                assert(ws[p].0@ == k);
            }
        }
        false
    }

    /// Checks a commit and frames its log record. Where the record has to be
    /// appended, the timestamp is taken already.
    pub fn prepare_commit(&self, manager: &mut TxnManager, elapsed_nanos: u128) -> (r: Result<
        CommitStep,
    >)
        requires
            self.wf(),
            old(manager).wf(),
            old(manager).commit_ts < u64::MAX,
        ensures
            final(manager).store == old(manager).store,
            ({
                let ops = ops_view(self.write_set.entries@);
                let ts = (old(manager).commit_ts + 1) as u64;
                if self.timed_out(elapsed_nanos) {
                    (r matches Err(e) && e is TxnTimeout) && final(manager).commit_ts == old(manager).commit_ts
                } else if self.read_only || ops.len() == 0 {
                    (r matches Ok(CommitStep::Done(t)) && t == self.read_ts) && final(manager).commit_ts == old(manager).commit_ts
                } else if self.conflicts(&old(manager).store) {
                    (r matches Err(e) && e is WriteWriteConflict) && final(manager).commit_ts
                        == old(manager).commit_ts
                } else {
                    &&& final(manager).commit_ts == ts
                    &&& if ops.len() > u32::MAX {
                        r matches Err(e) && is_corrupt(e, "too many ops"@)
                    } else if !ops_ok(ops) {
                        r matches Err(TxnError::InvalidValueSize(a, b)) && b == VALUE_SIZE
                            && exists|i: int| #[trigger]
                            first_long(ops, i) && a == ops[i].value->0.len()
                    } else {
                        r matches Ok(CommitStep::Append { commit_ts, record }) && commit_ts == ts
                            && record@ == record_bytes(
                            payload_bytes(ts, ops),
                            crc32_of(payload_bytes(ts, ops)),
                        )
                    }
                }
            }),
    {
        if let Err(e) = self.ensure_not_timed_out(elapsed_nanos) {
            return Err(e);
        }
        if self.read_only || self.write_set.entries.len() == 0 {
            return Ok(CommitStep::Done(self.read_ts));
        }
        if self.has_conflict(&manager.store) {
            return Err(TxnError::WriteWriteConflict);
        }
        let commit_ts: u64 = manager.commit_ts + 1;
        manager.commit_ts = commit_ts;
        let payload = match encode_payload(commit_ts, &self.write_set) {
            Ok(p) => p,
            Err(e) => {
                return Err(e);
            },
        };
        let record = wal_record(payload.as_slice());
        Ok(CommitStep::Append { commit_ts, record })
    }

    /// Takes the writes of a transaction whose record is durable into the store.
    pub fn finish_commit(self, manager: &mut TxnManager, commit_ts: u64) -> (r: u64)
        requires
            old(manager).wf(),
        ensures
            r == commit_ts,
            final(manager).wf(),
            final(manager).commit_ts == old(manager).commit_ts,
            forall|k: Seq<u8>| #[trigger]
                final(manager).store.history(k) == history_after_ops(
                    old(manager).store.history(k),
                    k,
                    commit_ts,
                    ops_view(self.write_set.entries@),
                    self.write_set.entries@.len() as int,
                ),
    {
        manager.store.apply_ops(commit_ts, &self.write_set.entries);
        commit_ts
    }
}

/// Reads a replica: its snapshot, where there is one, and its log on top.
/// Returns the store, its newest timestamp, and the length of the part of the
/// log that can be read.
pub fn recover_replica(snapshot: Option<&[u8]>, wal: &[u8]) -> (r: Result<(TxnStore, u64, u64)>)
    ensures
        ({
            let (cs, end) = wal_commits(wal@, 0);
            let base = match snapshot {
                Some(s) => parse_snapshot(s@),
                None => Ok((0u64, Seq::<OpFields>::empty())),
            };
            match base {
                Err(f) => r matches Err(e) && is_fault(f, e),
                Ok((ts, rows)) => r matches Ok(v) && v.0.wf() && v.1 == newest_ts(
                    ts,
                    cs,
                    cs.len() as int,
                ) && v.2 == end && forall|k: Seq<u8>| #[trigger]
                    v.0.history(k) == history_after_commits(
                        history_after_ops(seq![], k, ts, rows, rows.len() as int),
                        k,
                        ts,
                        cs,
                        cs.len() as int,
                    ),
            }
        }),
{
    let (mut store, base_ts) = match snapshot {
        Some(s) => match decode_snapshot(s) {
            Ok(v) => v,
            Err(e) => {
                return Err(e);
            },
        },
        None => (TxnStore::new(), 0u64),
    };
    let (max_ts, valid_len) = replay_wal_with_base(wal, &mut store, base_ts);
    Ok((store, max_ts, valid_len))
}

/// What the last of the first `n` writes of a row says.
pub open spec fn last_write(k: Seq<u8>, ops: Seq<OpFields>, n: int) -> Option<Option<Seq<u8>>>
    decreases n,
{
    if n <= 0 {
        None
    } else if ops[n - 1].key == k {
        Some(ops[n - 1].value)
    } else {
        last_write(k, ops, n - 1)
    }
}

/// A commit leaves the snapshots before it as they were; a snapshot from it on
/// shows its writes, and where it wrote nothing what was there.
pub proof fn law_commit_and_snapshots(
    h: Seq<VersionFields>,
    k: Seq<u8>,
    ts: u64,
    ops: Seq<OpFields>,
    n: int,
    read_ts: u64,
)
    ensures
        read_at(history_after_ops(h, k, ts, ops, n), read_ts) == if read_ts < ts {
            read_at(h, read_ts)
        } else {
            match last_write(k, ops, n) {
                Some(v) => v,
                None => read_at(h, read_ts),
            }
        },
    decreases n,
{
    if n > 0 {
        law_commit_and_snapshots(h, k, ts, ops, n - 1, read_ts);
        let prev = history_after_ops(h, k, ts, ops, n - 1);
        if ops[n - 1].key == k {
            let v = VersionFields { commit_ts: ts, value: ops[n - 1].value };
            assert(prev.push(v).drop_last() =~= prev);
        }
    }
}

/// A write stays the newest version of its row.
proof fn lemma_written_last(
    h: Seq<VersionFields>,
    k: Seq<u8>,
    ts: u64,
    ops: Seq<OpFields>,
    n: int,
)
    requires
        last_write(k, ops, n) is Some,
    ensures
        history_after_ops(h, k, ts, ops, n).len() > 0,
        history_after_ops(h, k, ts, ops, n).last().commit_ts == ts,
    decreases n,
{
    if n > 0 && ops[n - 1].key != k {
        lemma_written_last(h, k, ts, ops, n - 1);
    }
}

/// Of two transactions that write the same row, the one that commits first
/// wins: once its writes are taken in at a timestamp above the other's
/// snapshot, the other conflicts.
pub proof fn law_first_committer_wins(
    winner: Txn,
    loser: Txn,
    before: TxnStore,
    after: TxnStore,
    ts: u64,
    k: Seq<u8>,
)
    requires
        winner.wf(),
        winner.write_set.has(k),
        loser.write_set.has(k),
        loser.read_ts < ts,
        after.history(k) == history_after_ops(
            before.history(k),
            k,
            ts,
            ops_view(winner.write_set.entries@),
            winner.write_set.entries@.len() as int,
        ),
    ensures
        loser.conflicts(&after),
{
    let ops = ops_view(winner.write_set.entries@);
    let p = key_place(winner.write_set.entries@, k);
    assert(winner.write_set.entries@[p].0@ == k);
    assert(ops[p].key == k);
    lemma_write_is_there(k, ops, p, ops.len() as int);
    lemma_written_last(before.history(k), k, ts, ops, ops.len() as int);
}

proof fn lemma_write_is_there(k: Seq<u8>, ops: Seq<OpFields>, p: int, n: int)
    requires
        0 <= p < n <= ops.len(),
        ops[p].key == k,
    ensures
        last_write(k, ops, n) is Some,
    decreases n,
{
    if ops[n - 1].key != k {
        lemma_write_is_there(k, ops, p, n - 1);
    }
}

/// A commit that is read back from the log leaves every row as taking it in
/// directly did.
pub proof fn law_replay_matches_commit(
    h: Seq<VersionFields>,
    k: Seq<u8>,
    base_ts: u64,
    cs: Seq<(u64, Seq<OpFields>)>,
    ts: u64,
    ops: Seq<OpFields>,
)
    requires
        ts > base_ts,
    ensures
        history_after_commits(h, k, base_ts, cs.push((ts, ops)), cs.len() as int + 1)
            == history_after_ops(
            history_after_commits(h, k, base_ts, cs, cs.len() as int),
            k,
            ts,
            ops,
            ops.len() as int,
        ),
{
    super::codec::lemma_history_prefix(h, k, base_ts, cs, (ts, ops), cs.len() as int);
    assert(cs.push((ts, ops))[cs.len() as int] == (ts, ops));
}

/// A read finds the newest version that its snapshot covers: version `i`, if all later
/// ones were committed after the snapshot; and nothing if all of them were.
pub proof fn law_read_finds_newest(h: Seq<VersionFields>, read_ts: u64, i: int)
    ensures
        0 <= i < h.len() && h[i].commit_ts <= read_ts && (forall|j: int|
            i < j < h.len() ==> (#[trigger] h[j]).commit_ts > read_ts) ==> read_at(h, read_ts)
            == h[i].value,
        (forall|j: int| 0 <= j < h.len() ==> (#[trigger] h[j]).commit_ts > read_ts) ==> read_at(
            h,
            read_ts,
        ) is None,
    decreases h.len(),
{
    if h.len() > 0 && h.last().commit_ts > read_ts {
        let t = h.drop_last();
        law_read_finds_newest(t, read_ts, i);
        assert forall|j: int| 0 <= j < t.len() implies t[j] == h[j] by {}
    }
}

/// A transaction reads what it wrote, and of every other row the newest version that was
/// committed when it began; what was committed later does not show.
pub proof fn law_transaction_reads(t: Txn, store: TxnStore, k: Seq<u8>, i: int)
    ensures
        t.write_set.has(k) ==> t.sees(&store, k) == value_fields(t.write_set.at(k)),
        ({
            let h = store.history(k);
            &&& !t.write_set.has(k) && 0 <= i < h.len() && h[i].commit_ts <= t.read_ts && (forall|
                j: int,
            |
                i < j < h.len() ==> (#[trigger] h[j]).commit_ts > t.read_ts) ==> t.sees(&store, k)
                == h[i].value
            &&& !t.write_set.has(k) && (forall|j: int|
                0 <= j < h.len() ==> (#[trigger] h[j]).commit_ts > t.read_ts) ==> t.sees(
                &store,
                k,
            ) is None
        }),
{
    law_read_finds_newest(store.history(k), t.read_ts, i);
}

/// A transaction is refused exactly if a row that it writes was committed after its
/// snapshot was taken.
pub proof fn law_conflict_is_a_newer_commit(t: Txn, store: TxnStore)
    ensures
        t.conflicts(&store) <==> exists|k: Seq<u8>|
            t.write_set.has(k) && (#[trigger] store.history(k)).len() > 0 && store.history(
                k,
            )[store.history(k).len() - 1].commit_ts > t.read_ts,
{
    if exists|k: Seq<u8>|
        t.write_set.has(k) && (#[trigger] store.history(k)).len() > 0 && store.history(
            k,
        )[store.history(k).len() - 1].commit_ts > t.read_ts {
        let k = choose|k: Seq<u8>|
            t.write_set.has(k) && (#[trigger] store.history(k)).len() > 0 && store.history(
                k,
            )[store.history(k).len() - 1].commit_ts > t.read_ts;
        assert(store.history(k).last().commit_ts > t.read_ts);
    }
}

proof fn lemma_no_write(h: Seq<VersionFields>, k: Seq<u8>, ts: u64, ops: Seq<OpFields>, n: int)
    requires
        0 <= n <= ops.len(),
        forall|j: int| 0 <= j < n ==> (#[trigger] ops[j]).key != k,
    ensures
        history_after_ops(h, k, ts, ops, n) == h,
    decreases n,
{
    if n > 0 {
        assert(ops[n - 1].key != k);
        lemma_no_write(h, k, ts, ops, n - 1);
    }
}

proof fn lemma_last_op(h: Seq<VersionFields>, k: Seq<u8>, ts: u64, ops: Seq<OpFields>, n: int, i: int)
    requires
        0 <= i < n <= ops.len(),
        ops[i].key == k,
        forall|j: int| i < j < n ==> (#[trigger] ops[j]).key != k,
    ensures
        ({
            let after = history_after_ops(h, k, ts, ops, n);
            after.len() > 0 && after.last() == (VersionFields {
                commit_ts: ts,
                value: ops[i].value,
            })
        }),
    decreases n,
{
    if i < n - 1 {
        assert(ops[n - 1].key != k);
        lemma_last_op(h, k, ts, ops, n - 1, i);
    }
}

/// Taking in a commit puts what it last wrote to a row on top of the row's versions, at
/// the commit's timestamp; a row that it did not write is as it was.
pub proof fn law_commit_puts_last_write_on_top(
    h: Seq<VersionFields>,
    k: Seq<u8>,
    ts: u64,
    ops: Seq<OpFields>,
    i: int,
)
    ensures
        0 <= i < ops.len() && ops[i].key == k && (forall|j: int|
            i < j < ops.len() ==> (#[trigger] ops[j]).key != k) ==> {
            let after = history_after_ops(h, k, ts, ops, ops.len() as int);
            &&& after.len() > 0
            &&& after.last().commit_ts == ts
            &&& after.last().value == ops[i].value
            &&& forall|read_ts: u64| ts <= read_ts ==> #[trigger] read_at(after, read_ts)
                == ops[i].value
        },
        (forall|j: int| 0 <= j < ops.len() ==> (#[trigger] ops[j]).key != k) ==> history_after_ops(
            h,
            k,
            ts,
            ops,
            ops.len() as int,
        ) == h,
{
    let n = ops.len() as int;
    if 0 <= i < n && ops[i].key == k && (forall|j: int|
        i < j < ops.len() ==> (#[trigger] ops[j]).key != k) {
        lemma_last_op(h, k, ts, ops, n, i);
    }
    if forall|j: int| 0 <= j < ops.len() ==> (#[trigger] ops[j]).key != k {
        lemma_no_write(h, k, ts, ops, n);
    }
}

/// Recovery takes in the commits of the log that the snapshot does not cover, and leaves
/// out those that it covers: a row is as the last uncovered commit that wrote it left it,
/// and as in the snapshot where none did.
///
/// Commit `i` is the last one that is not covered and wrote the row, `j` its last write.
pub proof fn law_recovery_applies_uncovered_commits(
    h: Seq<VersionFields>,
    k: Seq<u8>,
    base_ts: u64,
    cs: Seq<(u64, Seq<OpFields>)>,
    n: int,
    i: int,
    j: int,
)
    requires
        0 <= n <= cs.len(),
    ensures
        0 <= i < n && cs[i].0 > base_ts && 0 <= j < cs[i].1.len() && cs[i].1[j].key == k && (forall|
            b: int,
        |
            j < b < cs[i].1.len() ==> (#[trigger] cs[i].1[b]).key != k) && (forall|a: int, b: int|
            i < a < n && cs[a].0 > base_ts && 0 <= b < cs[a].1.len() ==> (#[trigger] cs[a].1[b]).key
                != k) ==> {
            let after = history_after_commits(h, k, base_ts, cs, n);
            after.len() > 0 && after.last().commit_ts == cs[i].0 && after.last().value
                == cs[i].1[j].value
        },
        (forall|a: int, b: int|
            0 <= a < n && cs[a].0 > base_ts && 0 <= b < cs[a].1.len() ==> (
            #[trigger] cs[a].1[b]).key != k) ==> history_after_commits(h, k, base_ts, cs, n) == h,
    decreases n,
{
    if n > 0 {
        law_recovery_applies_uncovered_commits(h, k, base_ts, cs, n - 1, i, j);
        let prev = history_after_commits(h, k, base_ts, cs, n - 1);
        let ops = cs[n - 1].1;
        if cs[n - 1].0 > base_ts {
            if i == n - 1 {
                if 0 <= j < ops.len() && ops[j].key == k && (forall|b: int|
                    j < b < ops.len() ==> (#[trigger] cs[i].1[b]).key != k) {
                    assert forall|b: int| j < b < ops.len() implies (#[trigger] ops[b]).key != k by {
                        assert(cs[i].1[b].key != k);
                    }
                    lemma_last_op(prev, k, cs[n - 1].0, ops, ops.len() as int, j);
                }
            }
            if forall|a: int, b: int|
                (if i < n - 1 { i < a < n } else { 0 <= a < n }) && cs[a].0 > base_ts && 0 <= b
                    < cs[a].1.len() ==> (#[trigger] cs[a].1[b]).key != k {
                assert forall|b: int| 0 <= b < ops.len() implies (#[trigger] ops[b]).key != k by {
                    assert(cs[n - 1].1[b].key != k);
                }
                lemma_no_write(prev, k, cs[n - 1].0, ops, ops.len() as int);
            }
            if forall|a: int, b: int|
                0 <= a < n && cs[a].0 > base_ts && 0 <= b < cs[a].1.len() ==> (
                #[trigger] cs[a].1[b]).key != k {
                assert forall|b: int| 0 <= b < ops.len() implies (#[trigger] ops[b]).key != k by {
                    assert(cs[n - 1].1[b].key != k);
                }
                lemma_no_write(prev, k, cs[n - 1].0, ops, ops.len() as int);
            }
        }
    }
}

/// A store that is read back from its checkpoint gives every reader from the checkpoint
/// on what the store gave it.
pub proof fn law_checkpoint_keeps_reads(store: TxnStore, ts: u64, k: Seq<u8>, read_ts: u64)
    requires
        store.wf(),
        ts <= read_ts,
        store.history(k).len() > 0 ==> store.history(k).last().commit_ts <= ts,
    ensures
        ({
            let rows = super::codec::newest_values(
                store.rows.entries@,
                store.rows.entries@.len() as int,
            );
            read_at(history_after_ops(seq![], k, ts, rows, rows.len() as int), read_ts) == read_at(
                store.history(k),
                read_ts,
            )
        }),
{
    super::codec::law_snapshot_keeps_newest(store, ts, k);
}

/// A scan gives the rows from `start` on and before `end` that the transaction sees, in
/// order, and no others; where it gives fewer than `limit` rows it gives them all.
pub proof fn law_scan_rows(
    t: Txn,
    store: TxnStore,
    start: Seq<u8>,
    end: Seq<u8>,
    limit: int,
    rows: Seq<(Vec<u8>, Bytes)>,
    k: Seq<u8>,
)
    requires
        t.is_scan(&store, start, end, limit, rows),
    ensures
        rows.len() <= limit,
        forall|i: int, j: int|
            0 <= i < j < rows.len() ==> lex_lt((#[trigger] rows[i]).0@, (#[trigger] rows[j]).0@),
        forall|i: int|
            0 <= i < rows.len() ==> !lex_lt((#[trigger] rows[i]).0@, start) && lex_lt(
                rows[i].0@,
                end,
            ) && t.sees(&store, rows[i].0@) == Some(bytes_view(rows[i].1)),
        rows.len() < limit && !lex_lt(k, start) && lex_lt(k, end) && t.sees(&store, k) is Some
            ==> exists|i: int| 0 <= i < rows.len() && (#[trigger] rows[i]).0@ == k,
        rows.len() == limit && rows.len() > 0 && !lex_lt(k, start) && lex_lt(k, end) && t.sees(
            &store,
            k,
        ) is Some && !lex_lt(rows.last().0@, k) ==> exists|i: int|
            0 <= i < rows.len() && (#[trigger] rows[i]).0@ == k,
{
    if !lex_lt(k, start) && lex_lt(k, end) && t.sees(&store, k) is Some {
        assert(between(k, start, end));
    }
}

} // verus!
