//! Row versions that transactions committed, kept for snapshot reads.
use vstd::prelude::*;

use super::wal_codec::{records_view, BatchFields, RecordFields, WalBatch, WAL_OP_TXN_COMMIT,
    WAL_OP_TXN_DEL, WAL_OP_TXN_PUT};
use crate::layout::{bytes_eq, copy_bytes};

verus! {

/// The state of a row from `commit_lsn` on; no value when it was deleted.
#[derive(Clone, Debug)]
pub struct MvccVersion {
    pub commit_lsn: u64,
    pub value: Option<Vec<u8>>,
}

/// What a version says.
#[verifier::ext_equal]
pub struct VersionFields {
    pub commit_lsn: u64,
    pub value: Option<Seq<u8>>,
}

impl View for MvccVersion {
    type V = VersionFields;

    open spec fn view(&self) -> VersionFields {
        VersionFields {
            commit_lsn: self.commit_lsn,
            value: match self.value {
                Some(v) => Some(v@),
                None => None,
            },
        }
    }
}

pub open spec fn versions_view(vs: Seq<MvccVersion>) -> Seq<VersionFields> {
    Seq::new(vs.len(), |i: int| vs[i]@)
}

/// The versions of one row, in commit order.
#[derive(Debug)]
pub struct MvccEntry {
    pub key: Vec<u8>,
    pub versions: Vec<MvccVersion>,
}

/// Versions by row key; no key occurs twice.
#[derive(Debug)]
pub struct MvccStore {
    pub entries: Vec<MvccEntry>,
}

/// The first `n` entries as a map.
pub open spec fn entries_map(es: Seq<MvccEntry>, n: int) -> Map<Seq<u8>, Seq<VersionFields>>
    decreases n,
{
    if n <= 0 {
        Map::empty()
    } else {
        entries_map(es, n - 1).insert(es[n - 1].key@, versions_view(es[n - 1].versions@))
    }
}

pub open spec fn keys_distinct(es: Seq<MvccEntry>) -> bool {
    forall|i: int, j: int|
        0 <= i < es.len() && 0 <= j < es.len() && i != j ==> (#[trigger] es[i]).key@ != (
        #[trigger] es[j]).key@
}

/// Versions in the first `n` entries.
pub open spec fn versions_total(es: Seq<MvccEntry>, n: int) -> int
    decreases n,
{
    if n <= 0 {
        0
    } else {
        versions_total(es, n - 1) + es[n - 1].versions@.len()
    }
}

proof fn lemma_entries(es: Seq<MvccEntry>, n: int)
    requires
        keys_distinct(es),
        0 <= n <= es.len(),
    ensures
        forall|i: int|
            0 <= i < n ==> entries_map(es, n).contains_key((#[trigger] es[i]).key@) && entries_map(
                es,
                n,
            )[es[i].key@] == versions_view(es[i].versions@),
        forall|k: Seq<u8>| #[trigger]
            entries_map(es, n).contains_key(k) ==> exists|i: int|
                0 <= i < n && (#[trigger] es[i]).key@ == k,
    decreases n,
{
    if n > 0 {
        lemma_entries(es, n - 1);
        assert forall|k: Seq<u8>| #[trigger] entries_map(es, n).contains_key(k) implies exists|i: int|
            0 <= i < n && (#[trigger] es[i]).key@ == k by {
            if k != es[n - 1].key@ {
                assert(entries_map(es, n - 1).contains_key(k));
            } else {
                assert(es[n - 1].key@ == k);
            }
        }
    }
}

proof fn lemma_entries_same(a: Seq<MvccEntry>, b: Seq<MvccEntry>, n: int)
    requires
        0 <= n <= a.len(),
        n <= b.len(),
        forall|i: int| 0 <= i < n ==> a[i] == b[i],
    ensures
        entries_map(a, n) == entries_map(b, n),
        versions_total(a, n) == versions_total(b, n),
    decreases n,
{
    if n > 0 {
        lemma_entries_same(a, b, n - 1);
    }
}

/// Replacing the versions of one entry replaces them in the map.
proof fn lemma_entries_update(a: Seq<MvccEntry>, b: Seq<MvccEntry>, j: int, n: int)
    requires
        keys_distinct(a),
        a.len() == b.len(),
        0 <= j < n <= a.len(),
        b[j].key@ == a[j].key@,
        forall|i: int| 0 <= i < n && i != j ==> a[i] == b[i],
    ensures
        entries_map(b, n) == entries_map(a, n).insert(a[j].key@, versions_view(b[j].versions@)),
    decreases n,
{
    if n - 1 == j {
        lemma_entries_same(a, b, n - 1);
        assert(entries_map(b, n) =~= entries_map(a, n).insert(
            a[j].key@,
            versions_view(b[j].versions@),
        ));
    } else {
        lemma_entries_update(a, b, j, n - 1);
        assert(a[n - 1].key@ != a[j].key@);
        assert(entries_map(b, n) =~= entries_map(a, n).insert(
            a[j].key@,
            versions_view(b[j].versions@),
        ));
    }
}

impl MvccStore {
    pub open spec fn wf(&self) -> bool {
        keys_distinct(self.entries@)
    }

    /// The versions of every row.
    pub open spec fn rows(&self) -> Map<Seq<u8>, Seq<VersionFields>> {
        entries_map(self.entries@, self.entries@.len() as int)
    }

    /// The versions of one row, none if it was never written.
    pub open spec fn history(&self, key: Seq<u8>) -> Seq<VersionFields> {
        if self.rows().contains_key(key) {
            self.rows()[key]
        } else {
            seq![]
        }
    }

    /// A store without rows.
    pub fn new() -> (r: MvccStore)
        ensures
            r.wf(),
            r.rows() == Map::<Seq<u8>, Seq<VersionFields>>::empty(),
    {
        MvccStore { entries: Vec::new() }
    }

    fn find(&self, key: &[u8]) -> (r: Option<usize>)
        requires
            self.wf(),
        ensures
            match r {
                Some(i) => i < self.entries@.len() && self.entries@[i as int].key@ == key@
                    && self.rows().contains_key(key@) && self.rows()[key@] == versions_view(
                    self.entries@[i as int].versions@,
                ),
                None => !self.rows().contains_key(key@) && forall|j: int|
                    0 <= j < self.entries@.len() ==> (#[trigger] self.entries@[j]).key@ != key@,
            },
    {
        proof {
            lemma_entries(self.entries@, self.entries@.len() as int);
        }
        let n: usize = self.entries.len();
        let mut i: usize = 0;
        while i < n
            invariant
                self.wf(),
                n == self.entries@.len(),
                i <= n,
                forall|j: int| 0 <= j < i ==> (#[trigger] self.entries@[j]).key@ != key@,
            decreases n - i,
        {
            if bytes_eq(self.entries[i].key.as_slice(), key) {
                assert(self.entries@[i as int].key@ == key@);
                proof {
                    lemma_entries(self.entries@, self.entries@.len() as int);
                }
                return Some(i);
            }
            i += 1;
        }
        None
    }

    /// The versions of a row.
    pub fn get(&self, key: &[u8]) -> (r: Option<&Vec<MvccVersion>>)
        requires
            self.wf(),
        ensures
            match r {
                Some(v) => self.rows().contains_key(key@) && self.rows()[key@] == versions_view(v@),
                None => !self.rows().contains_key(key@),
            },
    {
        match self.find(key) {
            Some(i) => Some(&self.entries[i].versions),
            None => None,
        }
    }

    /// Sets the versions of a row.
    pub fn insert(&mut self, key: Vec<u8>, versions: Vec<MvccVersion>)
        requires
            old(self).wf(),
        ensures
            final(self).wf(),
            final(self).rows() == old(self).rows().insert(key@, versions_view(versions@)),
    {
        let ghost es = self.entries@;
        match self.find(key.as_slice()) {
            Some(i) => {
                let e = MvccEntry { key, versions };
                self.entries.set(i, e);
                proof {
                    assert(self.entries@[i as int].key@ == es[i as int].key@);
                    assert forall|a: int, b: int|
                        0 <= a < es.len() && 0 <= b < es.len() && a != b implies (
                    #[trigger] self.entries@[a]).key@ != (#[trigger] self.entries@[b]).key@ by {
                        assert(es[a].key@ != es[b].key@);
                    }
                    lemma_entries_update(es, self.entries@, i as int, es.len() as int);
                }
            },
            None => {
                self.push_entry(MvccEntry { key, versions });
            },
        }
    }

    fn push_entry(&mut self, e: MvccEntry)
        requires
            old(self).wf(),
            forall|j: int|
                0 <= j < old(self).entries@.len() ==> (#[trigger] old(self).entries@[j]).key@
                    != e.key@,
        ensures
            final(self).wf(),
            final(self).rows() == old(self).rows().insert(e.key@, versions_view(e.versions@)),
    {
        let ghost es = self.entries@;
        self.entries.push(e);
        proof {
            lemma_entries_same(es, self.entries@, es.len() as int);
            assert forall|a: int, b: int|
                0 <= a < es.len() + 1 && 0 <= b < es.len() + 1 && a != b implies (
            #[trigger] self.entries@[a]).key@ != (#[trigger] self.entries@[b]).key@ by {
                if a < es.len() {
                    assert(es[a].key@ != e.key@);
                }
                if b < es.len() {
                    assert(es[b].key@ != e.key@);
                }
            }
        }
    }

    /// Adds a version to a row.
    fn push_version(&mut self, key: &[u8], version: MvccVersion)
        requires
            old(self).wf(),
        ensures
            final(self).wf(),
            final(self).rows() == old(self).rows().insert(
                key@,
                old(self).history(key@).push(version@),
            ),
    {
        let ghost es = self.entries@;
        let ghost v = version@;
        match self.find(key) {
            Some(i) => {
                let e = &mut self.entries[i];
                e.versions.push(version);
                proof {
                    let b = self.entries@;
                    assert(versions_view(b[i as int].versions@) =~= versions_view(
                        es[i as int].versions@,
                    ).push(v));
                    assert forall|x: int, y: int|
                        0 <= x < es.len() && 0 <= y < es.len() && x != y implies (
                    #[trigger] b[x]).key@ != (#[trigger] b[y]).key@ by {
                        assert(es[x].key@ != es[y].key@);
                    }
                    lemma_entries_update(es, b, i as int, es.len() as int);
                }
            },
            None => {
                let mut versions: Vec<MvccVersion> = Vec::new();
                versions.push(version);
                assert(versions_view(versions@) =~= Seq::<VersionFields>::empty().push(v));
                self.push_entry(MvccEntry { key: copy_bytes(key), versions });
            },
        }
    }

    /// Rows that have versions.
    pub fn len(&self) -> (r: usize)
        requires
            self.wf(),
        ensures
            r == self.rows().dom().len(),
            self.rows().dom().finite(),
    {
        proof {
            lemma_entries_count(self.entries@, self.entries@.len() as int);
        }
        self.entries.len()
    }

    pub fn is_empty(&self) -> (r: bool)
        requires
            self.wf(),
        ensures
            r == (self.rows() == Map::<Seq<u8>, Seq<VersionFields>>::empty()),
    {
        proof {
            lemma_entries(self.entries@, self.entries@.len() as int);
            if self.entries@.len() > 0 {
                assert(self.rows().contains_key(self.entries@[0].key@));
            }
        }
        self.entries.len() == 0
    }

    /// Versions of all rows together.
    pub fn version_count(&self) -> (r: usize)
        requires
            versions_total(self.entries@, self.entries@.len() as int) <= usize::MAX,
        ensures
            r == versions_total(self.entries@, self.entries@.len() as int),
    {
        let n: usize = self.entries.len();
        let mut total: usize = 0;
        let mut i: usize = 0;
        while i < n
            invariant
                n == self.entries@.len(),
                i <= n,
                total == versions_total(self.entries@, i as int),
                versions_total(self.entries@, n as int) <= usize::MAX,
            decreases n - i,
        {
            proof {
                lemma_total_grows(self.entries@, i + 1, n as int);
            }
            total = total + self.entries[i].versions.len();
            i += 1;
        }
        total
    }
}

proof fn lemma_entries_count(es: Seq<MvccEntry>, n: int)
    requires
        keys_distinct(es),
        0 <= n <= es.len(),
    ensures
        entries_map(es, n).dom().finite(),
        entries_map(es, n).dom().len() == n,
    decreases n,
{
    if n > 0 {
        lemma_entries_count(es, n - 1);
        lemma_entries(es, n - 1);
        assert(!entries_map(es, n - 1).contains_key(es[n - 1].key@));
        assert(entries_map(es, n).dom() =~= entries_map(es, n - 1).dom().insert(es[n - 1].key@));
    } else {
        assert(entries_map(es, n).dom() =~= Set::empty());
    }
}

proof fn lemma_total_grows(es: Seq<MvccEntry>, a: int, b: int)
    requires
        0 <= a <= b,
    ensures
        0 <= versions_total(es, a) <= versions_total(es, b),
    decreases b,
{
    if a < b {
        lemma_total_grows(es, a, b - 1);
    } else if a > 0 {
        lemma_total_grows(es, a - 1, a - 1);
    }
}

/// A batch that ends with a commit marker.
pub open spec fn is_committed(b: BatchFields) -> bool {
    b.records.len() > 0 && b.records.last().op == WAL_OP_TXN_COMMIT
}

/// The version that a record makes of row `key`.
pub open spec fn record_version(r: RecordFields, lsn: u64) -> Option<VersionFields> {
    if r.op == WAL_OP_TXN_PUT {
        Some(VersionFields { commit_lsn: lsn, value: Some(r.value) })
    } else if r.op == WAL_OP_TXN_DEL {
        Some(VersionFields { commit_lsn: lsn, value: None })
    } else {
        None
    }
}

/// `rows` after the first `n` records of a committed batch.
pub open spec fn rows_after(
    rows: Map<Seq<u8>, Seq<VersionFields>>,
    rs: Seq<RecordFields>,
    lsn: u64,
    n: int,
) -> Map<Seq<u8>, Seq<VersionFields>>
    decreases n,
{
    if n <= 0 {
        rows
    } else {
        let before = rows_after(rows, rs, lsn, n - 1);
        let r = rs[n - 1];
        match record_version(r, lsn) {
            Some(v) => {
                let h = if before.contains_key(r.key) {
                    before[r.key]
                } else {
                    seq![]
                };
                before.insert(r.key, h.push(v))
            },
            None => before,
        }
    }
}

/// Applies a batch to the store, if it ends with a commit marker.
pub fn apply_txn_batch_to_mvcc(store: &mut MvccStore, batch: &WalBatch)
    requires
        old(store).wf(),
    ensures
        final(store).wf(),
        final(store).rows() == (if is_committed(batch@) {
            rows_after(
                old(store).rows(),
                batch@.records,
                batch@.end_lsn,
                batch@.records.len() as int,
            )
        } else {
            old(store).rows()
        }),
{
    let n: usize = batch.records.len();
    if n == 0 {
        return ;
    }
    if batch.records[n - 1].op != WAL_OP_TXN_COMMIT {
        return ;
    }
    let commit_lsn: u64 = batch.end_lsn;
    let ghost rs = batch@.records;
    let mut i: usize = 0;
    while i < n
        invariant
            n == batch.records@.len(),
            rs == records_view(batch.records@),
            i <= n,
            store.wf(),
            store.rows() == rows_after(old(store).rows(), rs, commit_lsn, i as int),
        decreases n - i,
    {
        let r = &batch.records[i];
        if r.op == WAL_OP_TXN_PUT {
            let value = copy_bytes(r.value.as_slice());
            store.push_version(
                r.key.as_slice(),
                MvccVersion { commit_lsn, value: Some(value) },
            );
        } else if r.op == WAL_OP_TXN_DEL {
            store.push_version(r.key.as_slice(), MvccVersion { commit_lsn, value: None });
        }
        i += 1;
    }
}

/// The last of the first `n` versions that a read at `read_lsn` sees.
pub open spec fn last_seen(h: Seq<VersionFields>, read_lsn: u64, n: int) -> Option<VersionFields>
    decreases n,
{
    if n <= 0 {
        None
    } else if h[n - 1].commit_lsn <= read_lsn {
        Some(h[n - 1])
    } else {
        last_seen(h, read_lsn, n - 1)
    }
}

/// What a read at `read_lsn` finds: no version, or a version with or without a value.
pub open spec fn visible(h: Seq<VersionFields>, read_lsn: u64) -> Option<Option<Seq<u8>>> {
    match last_seen(h, read_lsn, h.len() as int) {
        Some(v) => Some(v.value),
        None => None,
    }
}

/// Reads a row as of `read_lsn`.
pub fn mvcc_get_at(store: &MvccStore, key: &[u8], read_lsn: u64) -> (r: Option<Option<Vec<u8>>>)
    requires
        store.wf(),
    ensures
        match visible(store.history(key@), read_lsn) {
            None => r is None,
            Some(None) => r == Some(None::<Vec<u8>>),
            Some(Some(v)) => r matches Some(Some(w)) && w@ == v,
        },
{
    let versions = match store.get(key) {
        Some(v) => v,
        None => return None,
    };
    let ghost h = store.history(key@);
    let mut i: usize = versions.len();
    while i > 0
        invariant
            h == versions_view(versions@),
            i <= versions@.len(),
            h == store.history(key@),
            last_seen(h, read_lsn, h.len() as int) == last_seen(h, read_lsn, i as int),
        decreases i,
    {
        let v = &versions[i - 1];
        if v.commit_lsn <= read_lsn {
            assert(h[i - 1] == v@);
            return match &v.value {
                Some(b) => Some(Some(copy_bytes(b.as_slice()))),
                None => Some(None),
            };
        }
        i -= 1;
    }
    None
}

/// Leading versions that are not newer than the watermark.
pub open spec fn settled(h: Seq<VersionFields>, watermark: u64, i: int) -> int
    decreases h.len() - i,
{
    if i >= h.len() || h[i].commit_lsn > watermark {
        i
    } else {
        settled(h, watermark, i + 1)
    }
}

/// Versions that no read at the watermark or later needs.
pub open spec fn removable(h: Seq<VersionFields>, watermark: u64) -> int {
    if settled(h, watermark, 0) > 1 {
        settled(h, watermark, 0) - 1
    } else {
        0
    }
}

pub open spec fn pruned(h: Seq<VersionFields>, watermark: u64) -> Seq<VersionFields> {
    h.skip(removable(h, watermark))
}

proof fn lemma_settled(h: Seq<VersionFields>, watermark: u64, i: int)
    requires
        0 <= i <= h.len(),
    ensures
        i <= settled(h, watermark, i) <= h.len(),
        forall|j: int|
            i <= j < settled(h, watermark, i) ==> (#[trigger] h[j]).commit_lsn <= watermark,
    decreases h.len() - i,
{
    if i < h.len() && h[i].commit_lsn <= watermark {
        lemma_settled(h, watermark, i + 1);
    }
}

/// Rows among the first `n` that lose a version.
pub open spec fn rows_pruned(es: Seq<MvccEntry>, watermark: u64, n: int) -> int
    decreases n,
{
    if n <= 0 {
        0
    } else {
        rows_pruned(es, watermark, n - 1) + if removable(
            versions_view(es[n - 1].versions@),
            watermark,
        ) > 0 {
            1int
        } else {
            0
        }
    }
}

/// Versions that the first `n` rows lose.
pub open spec fn versions_pruned(es: Seq<MvccEntry>, watermark: u64, n: int) -> int
    decreases n,
{
    if n <= 0 {
        0
    } else {
        versions_pruned(es, watermark, n - 1) + removable(
            versions_view(es[n - 1].versions@),
            watermark,
        )
    }
}

/// Every row pruned.
pub open spec fn rows_after_gc(
    rows: Map<Seq<u8>, Seq<VersionFields>>,
    watermark: u64,
) -> Map<Seq<u8>, Seq<VersionFields>> {
    rows.map_values(|h: Seq<VersionFields>| pruned(h, watermark))
}

proof fn lemma_gc_map(a: Seq<MvccEntry>, b: Seq<MvccEntry>, watermark: u64, n: int)
    requires
        a.len() == b.len(),
        0 <= n <= a.len(),
        forall|i: int|
            0 <= i < n ==> (#[trigger] b[i]).key@ == a[i].key@ && versions_view(b[i].versions@)
                == pruned(versions_view(a[i].versions@), watermark),
    ensures
        entries_map(b, n) == rows_after_gc(entries_map(a, n), watermark),
    decreases n,
{
    if n > 0 {
        lemma_gc_map(a, b, watermark, n - 1);
        assert(b[n - 1].key@ == a[n - 1].key@);
    }
    assert(entries_map(b, n) =~= rows_after_gc(entries_map(a, n), watermark));
}

fn prune(versions: &mut Vec<MvccVersion>, watermark: u64) -> (r: usize)
    ensures
        r == removable(versions_view(old(versions)@), watermark),
        versions_view(final(versions)@) == pruned(versions_view(old(versions)@), watermark),
        r <= old(versions)@.len(),
{
    let ghost h = versions_view(versions@);
    let n: usize = versions.len();
    proof {
        lemma_settled(h, watermark, 0);
        assert(h.skip(0) =~= h);
    }
    let mut i: usize = 0;
    while i < n && versions[i].commit_lsn <= watermark
        invariant
            n == versions@.len(),
            h == versions_view(versions@),
            i <= n,
            settled(h, watermark, 0) == settled(h, watermark, i as int),
        decreases n - i,
    {
        assert(h[i as int] == versions@[i as int]@);
        i += 1;
    }
    proof {
        if i < n {
            assert(h[i as int] == versions@[i as int]@);
        }
    }
    if i <= 1 {
        return 0;
    }
    let kept = versions.split_off(i - 1);
    *versions = kept;
    assert(versions_view(versions@) =~= h.skip(i - 1));
    i - 1
}

/// Drops the versions that no read at the watermark or later needs. Returns how
/// many rows lost versions, and how many versions went.
pub fn gc_mvcc_versions(store: &mut MvccStore, watermark: u64) -> (r: (usize, usize))
    requires
        old(store).wf(),
        versions_total(old(store).entries@, old(store).entries@.len() as int) <= usize::MAX,
    ensures
        final(store).wf(),
        final(store).rows() == rows_after_gc(old(store).rows(), watermark),
        ({
            let es = old(store).entries@;
            &&& r.0 == rows_pruned(es, watermark, es.len() as int)
            &&& r.1 == versions_pruned(es, watermark, es.len() as int)
        }),
{
    let ghost es = store.entries@;
    let n: usize = store.entries.len();
    let mut keys_touched: usize = 0;
    let mut versions_removed: usize = 0;
    let mut i: usize = 0;
    while i < n
        invariant
            n == es.len(),
            es == old(store).entries@,
            store.entries@.len() == n,
            i <= n,
            keys_distinct(es),
            forall|j: int| i <= j < n ==> #[trigger] store.entries@[j] == es[j],
            forall|j: int|
                0 <= j < i ==> (#[trigger] store.entries@[j]).key@ == es[j].key@ && versions_view(
                    store.entries@[j].versions@,
                ) == pruned(versions_view(es[j].versions@), watermark),
            keys_touched <= i,
            keys_touched == rows_pruned(es, watermark, i as int),
            versions_removed == versions_pruned(es, watermark, i as int),
            versions_removed <= versions_total(es, i as int),
            versions_total(es, n as int) <= usize::MAX,
        decreases n - i,
    {
        proof {
            lemma_total_grows(es, i + 1, n as int);
        }
        assert(store.entries@[i as int] == es[i as int]);
        let e = &mut store.entries[i];
        let removed: usize = prune(&mut e.versions, watermark);
        if removed > 0 {
            keys_touched += 1;
            versions_removed += removed;
        }
        i += 1;
    }
    proof {
        let b = store.entries@;
        assert forall|x: int, y: int| 0 <= x < es.len() && 0 <= y < es.len() && x != y implies (
        #[trigger] b[x]).key@ != (#[trigger] b[y]).key@ by {
            assert(es[x].key@ != es[y].key@);
        }
        lemma_gc_map(es, b, watermark, n as int);
    }
    (keys_touched, versions_removed)
}

proof fn lemma_last_seen_skip(h: Seq<VersionFields>, read_lsn: u64, k: int, n: int)
    requires
        0 <= k < n <= h.len(),
        h[k].commit_lsn <= read_lsn,
    ensures
        last_seen(h.skip(k), read_lsn, n - k) == last_seen(h, read_lsn, n),
    decreases n,
{
    assert(h.skip(k)[n - k - 1] == h[n - 1]);
    if n - 1 > k && h[n - 1].commit_lsn > read_lsn {
        lemma_last_seen_skip(h, read_lsn, k, n - 1);
    }
}

/// Garbage collection changes no read at the watermark or later.
pub proof fn law_gc_keeps_reads(h: Seq<VersionFields>, watermark: u64, read_lsn: u64)
    requires
        watermark <= read_lsn,
    ensures
        visible(pruned(h, watermark), read_lsn) == visible(h, read_lsn),
{
    lemma_settled(h, watermark, 0);
    let k = removable(h, watermark);
    if k > 0 {
        assert(h[k].commit_lsn <= watermark);
        lemma_last_seen_skip(h, read_lsn, k, h.len() as int);
    } else {
        assert(h.skip(0) =~= h);
    }
}

proof fn lemma_last_seen_prefix(h: Seq<VersionFields>, v: VersionFields, read_lsn: u64, n: int)
    requires
        0 <= n <= h.len(),
    ensures
        last_seen(h.push(v), read_lsn, n) == last_seen(h, read_lsn, n),
    decreases n,
{
    if n > 0 {
        lemma_last_seen_prefix(h, v, read_lsn, n - 1);
    }
}

/// A snapshot read is stable: a version that commits later does not change it,
/// and a version that commits at or before it is what it finds.
pub proof fn law_snapshot_read(h: Seq<VersionFields>, v: VersionFields, read_lsn: u64)
    ensures
        v.commit_lsn > read_lsn ==> visible(h.push(v), read_lsn) == visible(h, read_lsn),
        v.commit_lsn <= read_lsn ==> visible(h.push(v), read_lsn) == Some(v.value),
{
    lemma_last_seen_prefix(h, v, read_lsn, h.len() as int);
}

proof fn lemma_rows_after_read(
    rows: Map<Seq<u8>, Seq<VersionFields>>,
    rs: Seq<RecordFields>,
    lsn: u64,
    n: int,
    key: Seq<u8>,
    read_lsn: u64,
)
    requires
        read_lsn < lsn,
        0 <= n <= rs.len(),
    ensures
        visible(row_history(rows_after(rows, rs, lsn, n), key), read_lsn) == visible(
            row_history(rows, key),
            read_lsn,
        ),
    decreases n,
{
    if n > 0 {
        lemma_rows_after_read(rows, rs, lsn, n - 1, key, read_lsn);
        let before = rows_after(rows, rs, lsn, n - 1);
        match record_version(rs[n - 1], lsn) {
            Some(v) => {
                law_snapshot_read(row_history(before, rs[n - 1].key), v, read_lsn);
            },
            None => {},
        }
    }
}

/// The versions of a row in a map of rows.
pub open spec fn row_history(
    rows: Map<Seq<u8>, Seq<VersionFields>>,
    key: Seq<u8>,
) -> Seq<VersionFields> {
    if rows.contains_key(key) {
        rows[key]
    } else {
        seq![]
    }
}

/// Applying a batch changes no read below its commit point.
pub proof fn law_apply_keeps_earlier_reads(
    rows: Map<Seq<u8>, Seq<VersionFields>>,
    b: BatchFields,
    key: Seq<u8>,
    read_lsn: u64,
)
    requires
        read_lsn < b.end_lsn,
    ensures
        visible(
            row_history(rows_after(rows, b.records, b.end_lsn, b.records.len() as int), key),
            read_lsn,
        ) == visible(row_history(rows, key), read_lsn),
{
    lemma_rows_after_read(rows, b.records, b.end_lsn, b.records.len() as int, key, read_lsn);
}

/// The last write to `key` among the first `n` records.
pub open spec fn last_write(rs: Seq<RecordFields>, key: Seq<u8>, n: int) -> Option<
    Option<Seq<u8>>,
>
    decreases n,
{
    if n <= 0 {
        None
    } else if rs[n - 1].key == key && rs[n - 1].op == WAL_OP_TXN_PUT {
        Some(Some(rs[n - 1].value))
    } else if rs[n - 1].key == key && rs[n - 1].op == WAL_OP_TXN_DEL {
        Some(None)
    } else {
        last_write(rs, key, n - 1)
    }
}

/// A read at the commit point of a batch, or later, finds the batch's last write to the row.
pub proof fn law_apply_then_read(
    rows: Map<Seq<u8>, Seq<VersionFields>>,
    rs: Seq<RecordFields>,
    lsn: u64,
    n: int,
    key: Seq<u8>,
    read_lsn: u64,
)
    requires
        lsn <= read_lsn,
        0 <= n <= rs.len(),
        last_write(rs, key, n) is Some,
    ensures
        visible(row_history(rows_after(rows, rs, lsn, n), key), read_lsn) == last_write(rs, key, n),
    decreases n,
{
    let before = rows_after(rows, rs, lsn, n - 1);
    let r = rs[n - 1];
    if r.key == key && record_version(r, lsn) is Some {
        law_snapshot_read(row_history(before, key), record_version(r, lsn)->0, read_lsn);
    } else {
        law_apply_then_read(rows, rs, lsn, n - 1, key, read_lsn);
    }
}

/// A read finds the last version of a row that its snapshot covers, in the order in which
/// the versions came: version `i`, if all later ones are beyond the snapshot; and none if
/// all of them are.
pub proof fn law_read_finds_last_covered(h: Seq<VersionFields>, read_lsn: u64, i: int)
    ensures
        0 <= i < h.len() && h[i].commit_lsn <= read_lsn && (forall|j: int|
            i < j < h.len() ==> (#[trigger] h[j]).commit_lsn > read_lsn) ==> visible(h, read_lsn)
            == Some(h[i].value),
        (forall|j: int| 0 <= j < h.len() ==> (#[trigger] h[j]).commit_lsn > read_lsn) ==> visible(
            h,
            read_lsn,
        ) is None,
{
    lemma_last_covered(h, read_lsn, i, h.len() as int);
}

proof fn lemma_last_covered(h: Seq<VersionFields>, read_lsn: u64, i: int, n: int)
    requires
        0 <= n <= h.len(),
    ensures
        0 <= i < n && h[i].commit_lsn <= read_lsn && (forall|j: int|
            i < j < n ==> (#[trigger] h[j]).commit_lsn > read_lsn) ==> last_seen(h, read_lsn, n)
            == Some(h[i]),
        (forall|j: int| 0 <= j < n ==> (#[trigger] h[j]).commit_lsn > read_lsn) ==> last_seen(
            h,
            read_lsn,
            n,
        ) is None,
    decreases n,
{
    if n > 0 && h[n - 1].commit_lsn > read_lsn {
        lemma_last_covered(h, read_lsn, i, n - 1);
    }
}

proof fn lemma_rows_after(
    rows: Map<Seq<u8>, Seq<VersionFields>>,
    rs: Seq<RecordFields>,
    lsn: u64,
    n: int,
    key: Seq<u8>,
    i: int,
)
    requires
        0 <= n <= rs.len(),
    ensures
        ({
            let h = row_history(rows_after(rows, rs, lsn, n), key);
            let later = forall|j: int|
                i < j < n && (#[trigger] rs[j]).key == key ==> rs[j].op != 21 && rs[j].op != 22;
            &&& 0 <= i < n && rs[i].key == key && rs[i].op == 21 && later ==> h.len() > 0
                && h.last() == (VersionFields { commit_lsn: lsn, value: Some(rs[i].value) })
            &&& 0 <= i < n && rs[i].key == key && rs[i].op == 22 && later ==> h.len() > 0
                && h.last() == (VersionFields { commit_lsn: lsn, value: None })
            &&& (forall|j: int|
                0 <= j < n && (#[trigger] rs[j]).key == key ==> rs[j].op != 21 && rs[j].op != 22)
                ==> h == row_history(rows, key)
        }),
    decreases n,
{
    if n > 0 {
        lemma_rows_after(rows, rs, lsn, n - 1, key, i);
        let r = rs[n - 1];
        if r.key == key && (r.op == 21 || r.op == 22) {
            assert(rs[n - 1].key == key);
        }
    }
}

/// Applying a committed batch puts its last record of a row on top of the row's versions,
/// at the end of the batch: the value that was put, or none after a delete. A row that
/// the batch does not write is as it was.
pub proof fn law_batch_puts_last_record_on_top(
    rows: Map<Seq<u8>, Seq<VersionFields>>,
    b: BatchFields,
    key: Seq<u8>,
    i: int,
)
    ensures
        ({
            let n = b.records.len() as int;
            let h = row_history(rows_after(rows, b.records, b.end_lsn, n), key);
            let later = forall|j: int|
                i < j < n && (#[trigger] b.records[j]).key == key ==> b.records[j].op != 21
                    && b.records[j].op != 22;
            &&& 0 <= i < n && b.records[i].key == key && b.records[i].op == 21 && later ==> h.len()
                > 0 && h.last().commit_lsn == b.end_lsn && h.last().value == Some(
                b.records[i].value,
            )
            &&& 0 <= i < n && b.records[i].key == key && b.records[i].op == 22 && later ==> h.len()
                > 0 && h.last().commit_lsn == b.end_lsn && h.last().value is None
            &&& (forall|j: int|
                0 <= j < n && (#[trigger] b.records[j]).key == key ==> b.records[j].op != 21
                    && b.records[j].op != 22) ==> h == row_history(rows, key)
        }),
{
    lemma_rows_after(rows, b.records, b.end_lsn, b.records.len() as int, key, i);
}

/// A batch commits its rows exactly if its last record is the commit marker.
pub proof fn law_commit_marker_is_last(b: BatchFields)
    ensures
        is_committed(b) <==> b.records.len() > 0 && b.records[b.records.len() - 1].op == 23,
{
}

proof fn lemma_settled_all(h: Seq<VersionFields>, watermark: u64, i: int, k: int)
    requires
        0 <= i <= k <= h.len(),
        forall|j: int| i <= j < k ==> (#[trigger] h[j]).commit_lsn <= watermark,
    ensures
        settled(h, watermark, i) >= k,
    decreases k - i,
{
    if i < k {
        assert(h[i].commit_lsn <= watermark);
        lemma_settled_all(h, watermark, i + 1, k);
    } else {
        lemma_settled(h, watermark, i);
    }
}

/// Garbage collection leaves of a row's versions a suffix, in which at most one version is
/// not newer than the watermark; and no version that is newer goes.
pub proof fn law_gc_leaves_one_old_version(h: Seq<VersionFields>, watermark: u64)
    requires
        forall|i: int, j: int|
            0 <= i < j < h.len() ==> (#[trigger] h[i]).commit_lsn <= (#[trigger] h[j]).commit_lsn,
    ensures
        exists|k: int| 0 <= k <= h.len() && pruned(h, watermark) == #[trigger] h.skip(k),
        forall|i: int|
            1 <= i < pruned(h, watermark).len() ==> (#[trigger] pruned(h, watermark)[i]).commit_lsn
                > watermark,
        forall|i: int|
            0 <= i < h.len() && (#[trigger] h[i]).commit_lsn > watermark ==> pruned(
                h,
                watermark,
            ).contains(h[i]),
        h.len() > 0 ==> pruned(h, watermark).len() > 0,
{
    lemma_settled(h, watermark, 0);
    let n = settled(h, watermark, 0);
    let k = removable(h, watermark);
    let p = pruned(h, watermark);
    assert(0 <= k <= h.len() && p == h.skip(k));
    lemma_settled_stop(h, watermark, 0);
    assert forall|i: int| 1 <= i < p.len() implies (#[trigger] p[i]).commit_lsn > watermark by {
        assert(p[i] == h[k + i]);
        if h[k + i].commit_lsn <= watermark {
            assert forall|j: int| 0 <= j < k + i + 1 implies (#[trigger] h[j]).commit_lsn
                <= watermark by {
                if j < k + i {
                    assert(h[j].commit_lsn <= h[k + i].commit_lsn);
                }
            }
            lemma_settled_all(h, watermark, 0, k + i + 1);
        }
    }
    assert forall|i: int| 0 <= i < h.len() && (#[trigger] h[i]).commit_lsn > watermark implies
        p.contains(h[i]) by {
        if i < k {
            assert(h[i].commit_lsn <= watermark);
        }
        assert(p[i - k] == h[i]);
    }
}

proof fn lemma_settled_stop(h: Seq<VersionFields>, watermark: u64, i: int)
    requires
        0 <= i <= h.len(),
    ensures
        settled(h, watermark, i) < h.len() ==> h[settled(h, watermark, i)].commit_lsn > watermark,
    decreases h.len() - i,
{
    if i < h.len() && h[i].commit_lsn <= watermark {
        lemma_settled_stop(h, watermark, i + 1);
    }
}

/// The counts of a garbage collection: as many versions as there are fewer afterwards, in
/// as many rows as have fewer.
pub proof fn law_gc_counts(es: Seq<MvccEntry>, es2: Seq<MvccEntry>, watermark: u64, n: int)
    requires
        0 <= n <= es.len(),
        es2.len() == es.len(),
        forall|i: int|
            0 <= i < es.len() ==> versions_view((#[trigger] es2[i]).versions@) == pruned(
                versions_view(es[i].versions@),
                watermark,
            ),
    ensures
        versions_pruned(es, watermark, n) == versions_total(es, n) - versions_total(es2, n),
        Set::new(
            |i: int| 0 <= i < n && es2[i].versions@.len() < es[i].versions@.len(),
        ).finite(),
        rows_pruned(es, watermark, n) == Set::new(
            |i: int| 0 <= i < n && es2[i].versions@.len() < es[i].versions@.len(),
        ).len(),
    decreases n,
{
    let now = Set::new(|i: int| 0 <= i < n && es2[i].versions@.len() < es[i].versions@.len());
    if n > 0 {
        law_gc_counts(es, es2, watermark, n - 1);
        let before = Set::new(
            |i: int| 0 <= i < n - 1 && es2[i].versions@.len() < es[i].versions@.len(),
        );
        let h = versions_view(es[n - 1].versions@);
        lemma_settled(h, watermark, 0);
        assert(versions_view(es2[n - 1].versions@).len() == es2[n - 1].versions@.len());
        assert(h.len() == es[n - 1].versions@.len());
        if removable(h, watermark) > 0 {
            assert(now =~= before.insert(n - 1));
        } else {
            assert(now =~= before);
        }
    } else {
        assert(now =~= Set::empty());
    }
}

} // verus!
