//! Transactions: reads at a snapshot, and writes that stand as intents until
//! they are committed.
use vstd::prelude::*;
use vstd::string::*;

use super::page_map::{find_page, store_page};
use super::registry::TxnRegistry;
use super::soundness::{segment_sound, sound, staged_cached};
use super::undo::{based, list_views, no_segment, page_sound, place_undo, rebase, segment_after,
    undo_plan, UndoPlan, UndoSegment};
use super::visibility::{is_intent, law_same_records_same_version, lemma_version_none,
    lemma_version_step, reads_alike, row_seen, row_visibility,
    undo_at, undo_version, version_result, walk_ends, walk_finite, Visibility, Walk, FLAG_INTENT,
    FLAG_TOMBSTONE};
use crate::active_reads::{ActiveReads, ReadGuard};
use crate::btree_meta::BTREE_META_PAGE_ID;
use crate::common::{bytes_view, io_error, is_io_error, page_bytes, Error, IoErrorKind, Page,
    PageId, Result, KEY_SIZE, VALUE_SIZE};
use crate::key_order::{be_num, is_key};
use crate::key_set::KeySet;
use crate::layout::copy_bytes;
use crate::meta_page::{is_meta, is_meta_page, meta_of, not_meta, MetaPage, META_PAGE_ID};
use crate::page_bptree::chain::MAX_SCAN_LEAF_HOPS;
use crate::page_bptree::node_page::{stored_undo_ptr, LeafRow, LeafValue, LeafValueMeta,
    LeafValueRef};
use crate::page_bptree::provider::{listed_from, AsyncPageProvider};
use crate::page_bptree::shape::{leaf_id, roomy, same_ways, well_shaped};
use crate::page_bptree::tree::{lemma_tree_page, PageBPlusTree};
use crate::page_bptree::tree_model::has_id;
use crate::text::dec;
use crate::txn_page_provider::{listed_in, page_views, TxnPageProvider};
use crate::undo_pg::{not_undo, read_record_ref, unreadable, value_array, UndoFields, UndoPtr, UndoRecord};
use std::collections::BTreeMap;

verus! {

broadcast use vstd::std_specs::btree::group_btree_axioms;

/// The engine: the tree, the pages outside it, the reads in progress and the
/// transactions under way.
pub struct EmbeddedCompute {
    pub tree: PageBPlusTree<TxnPageProvider>,
    /// Pages outside the tree. None is forgotten: the undo pages of a transaction under
    /// way are held nowhere else, and taking it back needs them.
    pub page_cache: BTreeMap<u64, Page>,
    pub active_reads: ActiveReads,
    pub registry: TxnRegistry,
}

impl EmbeddedCompute {
    pub open spec fn wf(&self) -> bool {
        &&& self.tree.wf()
        &&& self.tree.provider.btree_meta_page_id == BTREE_META_PAGE_ID
        &&& self.active_reads.wf()
        &&& self.registry.wf()
    }

    /// Pages outside the tree.
    pub open spec fn pages(&self) -> Map<u64, Seq<u8>> {
        page_views(self.page_cache@)
    }

    /// The row that the tree finds.
    pub open spec fn row(&self, key: Seq<u8>) -> Option<LeafRow> {
        if self.tree.depth() < MAX_SCAN_LEAF_HOPS && self.tree.rows().contains_key(key) {
            Some(self.tree.rows()[key])
        } else {
            None
        }
    }

    /// The tree takes another row.
    pub open spec fn has_room(&self) -> bool {
        self.tree.provider.next_id() + self.tree.depth() + 3 <= u64::MAX && self.tree.len < u64::MAX
    }

    /// Everything but the tree.
    pub open spec fn same_but_tree(&self, other: &EmbeddedCompute) -> bool {
        &&& self.page_cache == other.page_cache
        &&& self.active_reads == other.active_reads
        &&& self.registry == other.registry
    }
}

/// Buffered transaction that tracks dirty pages (tree + meta + undo pages).
#[derive(Debug)]
pub struct EmbeddedTxn {
    pub read_lsn: u64,
    /// Keeps this txn's snapshot active for GC watermarking.
    pub guard: Option<ReadGuard>,
    pub timeout_nanos: Option<u128>,
    pub read_only: bool,
    pub write_attempted: bool,
    pub dirty: BTreeMap<u64, Page>,
    pub bptree_dirty: BTreeMap<u64, Page>,
    pub ro_cache: BTreeMap<u64, Page>,
    pub modified: KeySet,
    pub undo_txn_id: Option<u64>,
    pub intent_base_lsn: u64,
    pub undo: UndoSegment,
}

/// What a read comes to.
#[derive(Debug)]
pub enum ReadStep<T> {
    Done(T),
    /// The row is not known before this transaction ends; then read again.
    Wait(u64),
}

/// The row that a transaction means to write.
pub open spec fn intent_row(
    value: Seq<u8>,
    undo_ptr: Option<UndoPtr>,
    flags: u16,
    txn_id: u64,
    lsn: u64,
) -> LeafRow {
    LeafRow {
        value,
        meta: LeafValueMeta {
            commit_lsn: 0,
            undo_ptr: stored_undo_ptr(undo_ptr),
            flags,
            intent_txn_id: txn_id,
            intent_lsn: lsn,
        },
    }
}

/// How an undo record comes to be put down.
pub enum UndoStep {
    ReadOnly,
    /// The meta page is not in memory.
    NoMeta,
    /// The meta page, with these bytes, cannot be decoded.
    BadMeta(Seq<u8>),
    /// The transaction's last undo page is not in memory.
    NoPage(u64),
    /// The transaction's last undo page, with these bytes, is no undo page.
    NotUndo(Seq<u8>),
    Placed(UndoPlan),
}

/// `m` after some pages were written.
pub open spec fn written(m: Map<u64, Seq<u8>>, ws: Seq<(u64, Seq<u8>)>, n: int) -> Map<u64, Seq<u8>>
    decreases n,
{
    if n <= 0 {
        m
    } else {
        written(m, ws, n - 1).insert(ws[n - 1].0, ws[n - 1].1)
    }
}

/// The error of a write in a read-only transaction.
pub open spec fn is_read_only_error(e: Error) -> bool {
    is_io_error(e, IoErrorKind::PermissionDenied, "read-only transaction"@)
}

fn read_only_error() -> (r: Error)
    ensures
        is_read_only_error(r),
{
    io_error(IoErrorKind::PermissionDenied, "read-only transaction")
}

/// A row that another transaction means to write.
pub open spec fn is_foreign(row: LeafRow, own: Option<u64>) -> bool {
    is_intent(row.meta.flags) && own != Some(row.meta.intent_txn_id)
}

pub open spec fn foreign_text(txn_id: int) -> Seq<char> {
    "encountered foreign intent txn_id="@ + dec(txn_id)
}

impl EmbeddedTxn {
    pub open spec fn wf(&self) -> bool {
        &&& self.modified.wf()
        &&& forall|k: Seq<u8>| #[trigger] self.modified@.contains(k) ==> is_key(k)
        &&& self.read_only == self.undo_txn_id is None
    }

    /// The transaction has lasted too long.
    pub open spec fn timed_out(&self, elapsed_nanos: u128) -> bool {
        self.timeout_nanos matches Some(t) && elapsed_nanos > t
    }

    /// The pages that the transaction reads.
    pub open spec fn readable(&self, compute: &EmbeddedCompute) -> Map<u64, Seq<u8>> {
        compute.pages().union_prefer_right(page_views(self.ro_cache@)).union_prefer_right(
            page_views(self.dirty@),
        )
    }

    /// The meta page that undo pages are taken from.
    pub open spec fn undo_meta(&self, compute: &EmbeddedCompute) -> Option<Seq<u8>> {
        if compute.pages().contains_key(META_PAGE_ID) {
            Some(compute.pages()[META_PAGE_ID])
        } else if page_views(self.dirty@).contains_key(META_PAGE_ID) {
            Some(page_views(self.dirty@)[META_PAGE_ID])
        } else {
            None
        }
    }

    /// The latest bytes of a page that the transaction may have written.
    pub open spec fn own_page(&self, compute: &EmbeddedCompute, id: u64) -> Option<Seq<u8>> {
        if page_views(self.dirty@).contains_key(id) {
            Some(page_views(self.dirty@)[id])
        } else if compute.pages().contains_key(id) {
            Some(compute.pages()[id])
        } else if page_views(self.ro_cache@).contains_key(id) {
            Some(page_views(self.ro_cache@)[id])
        } else {
            None
        }
    }

    /// The undo record that keeps an old row.
    pub open spec fn undo_fields(&self, old: LeafRow) -> UndoFields {
        UndoFields {
            data_page_id: 0,
            data_slot_id: 0,
            prev: old.meta.undo_ptr,
            txn_id: self.undo_txn_id->0 as int,
            txn_next: self.undo.last_record,
            old_commit_lsn: old.meta.commit_lsn as int,
            old_flags: old.meta.flags as int,
            old_value: old.value,
        }
    }

    /// How an undo record comes to be put down.
    pub open spec fn undo_step(&self, compute: &EmbeddedCompute, f: UndoFields) -> UndoStep {
        if self.undo_txn_id is None {
            UndoStep::ReadOnly
        } else {
            match self.undo_meta(compute) {
                None => UndoStep::NoMeta,
                Some(mb) => if !is_meta(mb) {
                    UndoStep::BadMeta(mb)
                } else {
                    let meta = based(meta_of(mb));
                    match self.undo.last_page_id {
                        None => placed(
                            undo_plan(self.undo, meta, None, self.undo_txn_id->0, f),
                            None,
                        ),
                        Some(cur) => match self.own_page(compute, cur) {
                            None => UndoStep::NoPage(cur),
                            Some(s) => placed(
                                undo_plan(self.undo, meta, Some(s), self.undo_txn_id->0, f),
                                Some(s),
                            ),
                        },
                    }
                },
            }
        }
    }

    /// What putting down an undo record needs: page ids are left, and the last
    /// undo page has its free space inside the page.
    pub open spec fn undo_ready(&self, compute: &EmbeddedCompute) -> bool {
        &&& self.undo_meta(compute) matches Some(mb) ==> (is_meta(mb) ==> based(
            meta_of(mb),
        ).next_undo_page_id < u64::MAX)
        &&& self.undo.last_page_id matches Some(cur) ==> (self.own_page(compute, cur) matches Some(
            s,
        ) ==> page_sound(s))
    }

    /// Every page of the tree that differs from `base`, and the page that names the root
    /// if it does, is among the tree pages that the transaction wrote, as it stands.
    pub open spec fn covers(&self, c: &EmbeddedCompute, base: Map<PageId, Seq<u8>>) -> bool {
        let m = c.tree.provider.pages();
        let list = page_views(self.bptree_dirty@);
        &&& c.tree.provider.btree_meta_page_id == BTREE_META_PAGE_ID
        &&& listed_in(m, m, list)
        &&& forall|x: PageId|
            has_id(c.tree.tree(), x) || x == BTREE_META_PAGE_ID ==> #[trigger] list.contains_key(x)
                || base.contains_key(x) && base[x] == m[x]
    }

    /// Nothing but the staged pages and the list of written tree pages differs.
    pub open spec fn same_but_pages(&self, other: &EmbeddedTxn) -> bool {
        &&& self.read_lsn == other.read_lsn
        &&& self.guard == other.guard
        &&& self.timeout_nanos == other.timeout_nanos
        &&& self.read_only == other.read_only
        &&& self.write_attempted == other.write_attempted
        &&& self.ro_cache == other.ro_cache
        &&& self.modified == other.modified
        &&& self.undo_txn_id == other.undo_txn_id
        &&& self.intent_base_lsn == other.intent_base_lsn
        &&& self.undo == other.undo
    }

    /// Nothing but what was written differs: the staged pages, the list of written tree
    /// pages, the written keys and the undo segment.
    pub open spec fn same_but_writes(&self, other: &EmbeddedTxn) -> bool {
        &&& self.read_lsn == other.read_lsn
        &&& self.guard == other.guard
        &&& self.timeout_nanos == other.timeout_nanos
        &&& self.read_only == other.read_only
        &&& self.write_attempted == other.write_attempted
        &&& self.ro_cache == other.ro_cache
        &&& self.undo_txn_id == other.undo_txn_id
        &&& self.intent_base_lsn == other.intent_base_lsn
    }

    /// Nothing but the list of written tree pages differs.
    pub open spec fn same_but_tree_dirty(&self, other: &EmbeddedTxn) -> bool {
        &&& self.read_lsn == other.read_lsn
        &&& self.guard == other.guard
        &&& self.timeout_nanos == other.timeout_nanos
        &&& self.read_only == other.read_only
        &&& self.write_attempted == other.write_attempted
        &&& self.dirty == other.dirty
        &&& self.ro_cache == other.ro_cache
        &&& self.modified == other.modified
        &&& self.undo_txn_id == other.undo_txn_id
        &&& self.intent_base_lsn == other.intent_base_lsn
        &&& self.undo == other.undo
    }

    /// Begins a transaction at the snapshot `read_lsn`; `txn_id` is its request id.
    pub fn begin(
        compute: &mut EmbeddedCompute,
        read_only: bool,
        timeout_nanos: Option<u128>,
        read_lsn: u64,
        txn_id: u64,
    ) -> (r: EmbeddedTxn)
        requires
            old(compute).wf(),
            old(compute).active_reads.next_id < u64::MAX,
        ensures
            final(compute).wf(),
            final(compute).tree == old(compute).tree,
            final(compute).page_cache == old(compute).page_cache,
            final(compute).registry == old(compute).registry,
            r.wf(),
            r.read_lsn == read_lsn,
            r.timeout_nanos == timeout_nanos,
            r.read_only == read_only,
            !r.write_attempted,
            r.dirty@ == Map::<u64, Page>::empty(),
            r.bptree_dirty@ == Map::<u64, Page>::empty(),
            r.ro_cache@ == Map::<u64, Page>::empty(),
            r.modified@ == Set::<Seq<u8>>::empty(),
            r.undo_txn_id == (if read_only {
                None
            } else {
                Some(txn_id)
            }),
            r.intent_base_lsn == (if read_only {
                0
            } else {
                read_lsn
            }),
            r.undo == no_segment(),
            segment_sound(&r, final(compute)),
            staged_cached(&r, final(compute)),
            forall|floor: u64| #[trigger] sound(old(compute), floor) ==> sound(final(compute), floor),
            r.guard matches Some(g) && !old(compute).active_reads.reads().contains_key(g.id)
                && final(compute).active_reads.reads() == old(
                compute,
            ).active_reads.reads().insert(g.id, read_lsn),
    {
        let guard = compute.active_reads.register(read_lsn);
        EmbeddedTxn {
            read_lsn,
            guard: Some(guard),
            timeout_nanos,
            read_only,
            write_attempted: false,
            dirty: BTreeMap::new(),
            bptree_dirty: BTreeMap::new(),
            ro_cache: BTreeMap::new(),
            modified: KeySet::new(),
            undo_txn_id: if read_only {
                None
            } else {
                Some(txn_id)
            },
            intent_base_lsn: if read_only {
                0
            } else {
                read_lsn
            },
            undo: UndoSegment::new(),
        }
    }

    /// Ends the snapshot.
    pub fn release(&mut self, compute: &mut EmbeddedCompute)
        requires
            old(compute).wf(),
        ensures
            final(compute).wf(),
            final(compute).tree == old(compute).tree,
            final(compute).page_cache == old(compute).page_cache,
            final(compute).registry == old(compute).registry,
            *final(self) == (EmbeddedTxn { guard: None, ..*old(self) }),
            final(compute).active_reads.reads() == (match old(self).guard {
                Some(g) => old(compute).active_reads.reads().remove(g.id),
                None => old(compute).active_reads.reads(),
            }),
    {
        let mut guard: Option<ReadGuard> = None;
        std::mem::swap(&mut guard, &mut self.guard);
        match guard {
            Some(g) => g.release(&mut compute.active_reads),
            None => {},
        }
    }

    /// When other transactions may clear this one away.
    pub fn registry_deadline(&self, started: u128, default_timeout: u128) -> (r: u128)
        requires
            started + (match self.timeout_nanos {
                Some(t) => t,
                None => default_timeout,
            }) <= u128::MAX,
        ensures
            r == started + (match self.timeout_nanos {
                Some(t) => t,
                None => default_timeout,
            }),
    {
        match self.timeout_nanos {
            Some(t) => started + t,
            None => started + default_timeout,
        }
    }

    /// Rejects work that comes too late.
    pub fn ensure_not_timed_out(&self, elapsed_nanos: u128) -> (r: Result<()>)
        ensures
            if self.timed_out(elapsed_nanos) {
                r matches Err(Error::TxnTimeout)
            } else {
                r is Ok
            },
    {
        match self.timeout_nanos {
            Some(t) => {
                if elapsed_nanos > t {
                    return Err(Error::TxnTimeout);
                }
            },
            None => {},
        }
        Ok(())
    }

    /// Stages a page; a read-only transaction only takes note of the attempt.
    pub fn write_page(&mut self, compute: &mut EmbeddedCompute, page_id: PageId, page: Page)
        ensures
            final(compute).tree == old(compute).tree,
            final(compute).active_reads == old(compute).active_reads,
            final(compute).registry == old(compute).registry,
            final(self).read_lsn == old(self).read_lsn,
            final(self).guard == old(self).guard,
            final(self).timeout_nanos == old(self).timeout_nanos,
            final(self).read_only == old(self).read_only,
            final(self).bptree_dirty == old(self).bptree_dirty,
            final(self).ro_cache == old(self).ro_cache,
            final(self).modified == old(self).modified,
            final(self).undo_txn_id == old(self).undo_txn_id,
            final(self).intent_base_lsn == old(self).intent_base_lsn,
            final(self).undo == old(self).undo,
            if old(self).read_only {
                &&& final(self).write_attempted
                &&& final(self).dirty == old(self).dirty
                &&& final(compute).page_cache == old(compute).page_cache
            } else {
                &&& final(self).write_attempted == old(self).write_attempted
                &&& page_views(final(self).dirty@) == page_views(old(self).dirty@).insert(
                    page_id,
                    bytes_view(page),
                )
                &&& final(compute).pages() == old(compute).pages().insert(page_id, bytes_view(page))
            },
    {
        if self.read_only {
            self.write_attempted = true;
            return ;
        }
        let copy = page.clone();
        store_page(&mut self.dirty, page_id, page);
        store_page(&mut compute.page_cache, page_id, copy);
    }

    /// A page as the transaction reads it; a page from the cache is kept for later reads.
    fn page_for_read(&mut self, compute: &EmbeddedCompute, page_id: PageId) -> (r: Option<Page>)
        ensures
            match r {
                Some(p) => old(self).readable(compute).contains_key(page_id) && bytes_view(p)
                    == old(self).readable(compute)[page_id],
                None => !old(self).readable(compute).contains_key(page_id),
            },
            final(self).readable(compute) == old(self).readable(compute),
            final(self).read_lsn == old(self).read_lsn,
            final(self).guard == old(self).guard,
            final(self).timeout_nanos == old(self).timeout_nanos,
            final(self).read_only == old(self).read_only,
            final(self).write_attempted == old(self).write_attempted,
            final(self).dirty == old(self).dirty,
            final(self).bptree_dirty == old(self).bptree_dirty,
            final(self).modified == old(self).modified,
            final(self).undo_txn_id == old(self).undo_txn_id,
            final(self).intent_base_lsn == old(self).intent_base_lsn,
            final(self).undo == old(self).undo,
    {
        match find_page(&self.dirty, page_id) {
            Some(p) => {
                return Some(p);
            },
            None => {},
        }
        match find_page(&self.ro_cache, page_id) {
            Some(p) => {
                return Some(p);
            },
            None => {},
        }
        match find_page(&compute.page_cache, page_id) {
            Some(p) => {
                let copy = p.clone();
                store_page(&mut self.ro_cache, page_id, copy);
                assert(self.readable(compute) =~= old(self).readable(compute));
                Some(p)
            },
            None => None,
        }
    }

    /// Follows undo records to the version at the snapshot.
    pub fn read_visible_from_undo(
        &mut self,
        compute: &EmbeddedCompute,
        undo: Option<UndoPtr>,
    ) -> (r: Result<Option<Vec<u8>>>)
        requires
            walk_finite(old(self).readable(compute), undo, old(self).read_lsn),
        ensures
            undo_outcome(
                old(self).readable(compute),
                undo_version(old(self).readable(compute), undo, old(self).read_lsn),
                r,
            ),
            final(self).readable(compute) == old(self).readable(compute),
            final(self).only_cached_more(old(self)),
    {
        let ghost m = self.readable(compute);
        let ghost lsn = self.read_lsn;
        let ghost goal = undo_version(m, undo, lsn);
        let ghost mut n: nat = choose|n: nat| #[trigger] walk_ends(m, undo, lsn, n);
        let mut cur: Option<UndoPtr> = undo;
        loop
            invariant
                m == self.readable(compute),
                m == old(self).readable(compute),
                lsn == self.read_lsn,
                self.only_cached_more(old(self)),
                walk_ends(m, cur, lsn, n),
                walk_finite(m, cur, lsn),
                undo_version(m, cur, lsn) == goal,
                goal == undo_version(m, undo, lsn),
                lsn == old(self).read_lsn,
            decreases n,
        {
            match cur {
                None => {
                    proof {
                        lemma_version_none(m, lsn);
                    }
                    return Ok(None);
                },
                Some(ptr) => {
                    proof {
                        lemma_version_step(m, ptr, lsn);
                    }
                    let page = match self.page_for_read(compute, ptr.page_id) {
                        Some(p) => p,
                        None => {
                            return Err(Error::InMemoryPageMissing(ptr.page_id));
                        },
                    };
                    let rec = match read_record_ref(&page, ptr.slot_id) {
                        Ok(rec) => rec,
                        Err(e) => {
                            return Err(e);
                        },
                    };
                    assert(rec@ == undo_at(m, ptr));
                    if (rec.old_flags & FLAG_INTENT) == 0 && rec.old_commit_lsn <= self.read_lsn {
                        if (rec.old_flags & FLAG_TOMBSTONE) != 0 {
                            return Ok(None);
                        }
                        return Ok(Some(copy_bytes(page_bytes(&rec.old_value))));
                    }
                    cur = rec.prev;
                    proof {
                        n = (n - 1) as nat;
                    }
                },
            }
        }
    }

    /// Only pages that were read are kept in addition.
    pub open spec fn only_cached_more(&self, old: &EmbeddedTxn) -> bool {
        &&& self.read_lsn == old.read_lsn
        &&& self.guard == old.guard
        &&& self.timeout_nanos == old.timeout_nanos
        &&& self.read_only == old.read_only
        &&& self.write_attempted == old.write_attempted
        &&& self.dirty == old.dirty
        &&& self.bptree_dirty == old.bptree_dirty
        &&& self.modified == old.modified
        &&& self.undo_txn_id == old.undo_txn_id
        &&& self.intent_base_lsn == old.intent_base_lsn
        &&& self.undo == old.undo
    }

    /// What reading a row needs: following its undo records ends.
    pub open spec fn row_readable(&self, compute: &EmbeddedCompute, key: Seq<u8>) -> bool {
        compute.row(key) matches Some(row) ==> (row_seen(
            row.meta,
            self.undo_txn_id,
            self.read_lsn,
        ) matches Visibility::Undo(p) ==> walk_finite(self.readable(compute), p, self.read_lsn))
    }

    /// The undo records that reading a row follows are the same in both engines.
    pub open spec fn row_reads_alike(
        &self,
        c0: &EmbeddedCompute,
        c1: &EmbeddedCompute,
        key: Seq<u8>,
    ) -> bool {
        c0.row(key) matches Some(row) ==> (row_seen(
            row.meta,
            self.undo_txn_id,
            self.read_lsn,
        ) matches Visibility::Undo(p) ==> reads_alike(
            self.readable(c0),
            self.readable(c1),
            p,
            self.read_lsn,
        ))
    }

    /// The value of a row at the snapshot, or whom to wait for.
    pub fn try_get(&mut self, compute: &EmbeddedCompute, elapsed_nanos: u128, key: &[u8]) -> (r:
        Result<ReadStep<Option<Vec<u8>>>>)
        requires
            compute.wf(),
            old(self).row_readable(compute, key@),
        ensures
            if old(self).timed_out(elapsed_nanos) {
                r matches Err(Error::TxnTimeout)
            } else if !is_key(key@) {
                r matches Err(Error::InvalidKeySize(a, b)) && a == key@.len() && b == KEY_SIZE
            } else {
                read_outcome(*old(self), *compute, key@, r)
            },
            final(self).readable(compute) == old(self).readable(compute),
            final(self).only_cached_more(old(self)),
    {
        match self.ensure_not_timed_out(elapsed_nanos) {
            Ok(()) => {},
            Err(e) => {
                return Err(e);
            },
        }
        if key.len() != KEY_SIZE {
            return Err(Error::InvalidKeySize(key.len(), KEY_SIZE));
        }
        let row = match compute.tree.get(key) {
            Some(row) => row,
            None => {
                return Ok(ReadStep::Done(None));
            },
        };
        match row_visibility(&row.meta, self.undo_txn_id, self.read_lsn) {
            Visibility::Current => Ok(ReadStep::Done(Some(copy_bytes(page_bytes(&row.value))))),
            Visibility::Deleted => Ok(ReadStep::Done(None)),
            Visibility::Wait(id) => Ok(ReadStep::Wait(id)),
            Visibility::Undo(p) => match self.read_visible_from_undo(compute, p) {
                Ok(v) => Ok(ReadStep::Done(v)),
                Err(e) => Err(e),
            },
        }
    }

    /// Whether a row exists at the snapshot, or whom to wait for.
    pub fn try_get_exists(
        &mut self,
        compute: &EmbeddedCompute,
        elapsed_nanos: u128,
        key: &[u8],
    ) -> (r: Result<ReadStep<bool>>)
        requires
            compute.wf(),
            old(self).row_readable(compute, key@),
        ensures
            if old(self).timed_out(elapsed_nanos) {
                r matches Err(Error::TxnTimeout)
            } else if !is_key(key@) {
                r matches Err(Error::InvalidKeySize(a, b)) && a == key@.len() && b == KEY_SIZE
            } else {
                match version_at(*old(self), *compute, key@) {
                    RowAt::Wait(id) => r == Ok::<ReadStep<bool>, Error>(ReadStep::Wait(id)),
                    RowAt::Value(v) => r == Ok::<ReadStep<bool>, Error>(ReadStep::Done(v is Some)),
                    RowAt::Failed(w) => version_result(old(self).readable(compute), w, r),
                }
            },
            final(self).readable(compute) == old(self).readable(compute),
            final(self).only_cached_more(old(self)),
    {
        match self.try_get(compute, elapsed_nanos, key) {
            Ok(ReadStep::Done(v)) => Ok(ReadStep::Done(v.is_some())),
            Ok(ReadStep::Wait(id)) => Ok(ReadStep::Wait(id)),
            Err(e) => Err(e),
        }
    }

    /// Puts a row into the tree on behalf of this transaction.
    pub(crate) fn tree_insert(
        &mut self,
        compute: &mut EmbeddedCompute,
        key: &[u8],
        row: LeafValue,
    ) -> (r: Result<()>)
        requires
            old(compute).wf(),
            old(compute).has_room(),
            is_key(key@),
        ensures
            forall|base: Map<PageId, Seq<u8>>| #[trigger]
                old(self).covers(old(compute), base) ==> final(self).covers(final(compute), base),
            r is Ok,
            final(compute).wf(),
            final(compute).same_but_tree(old(compute)),
            final(self).same_but_tree_dirty(old(self)),
            final(compute).tree.rows() == old(compute).tree.rows().insert(key@, row.row()),
            old(compute).tree.len <= final(compute).tree.len <= old(compute).tree.len + 1,
            final(compute).tree.depth() <= old(compute).tree.depth() + 1,
            old(compute).tree.provider.next_id() <= final(compute).tree.provider.next_id() <= old(
                compute,
            ).tree.provider.next_id() + old(compute).tree.depth() + 3,
            final(compute).tree.provider.dirty == old(compute).tree.provider.dirty,
            well_shaped(old(compute).tree.tree()) ==> well_shaped(final(compute).tree.tree()),
            page_views(old(self).bptree_dirty@).dom().subset_of(
                page_views(final(self).bptree_dirty@).dom(),
            ),
            roomy(old(compute).tree.tree(), be_num(key@)) ==> {
                let t = old(compute).tree.tree();
                let x = leaf_id(t, be_num(key@));
                &&& final(compute).tree.provider.next_id() == old(compute).tree.provider.next_id()
                &&& final(compute).tree.provider.root() == old(compute).tree.provider.root()
                &&& page_views(final(self).bptree_dirty@).dom() == page_views(
                    old(self).bptree_dirty@,
                ).dom().insert(x)
                &&& old(compute).tree.rows().contains_key(key@) ==> same_ways(
                    t,
                    final(compute).tree.tree(),
                )
            },
    {
        compute.tree.provider.swap_dirty(&mut self.bptree_dirty);
        let ghost mid = compute.tree;
        assert(mid.rows() == old(compute).tree.rows());
        let r = compute.tree.insert(copy_bytes(key), row);
        let ghost after = compute.tree;
        compute.tree.provider.swap_dirty(&mut self.bptree_dirty);
        proof {
            lemma_covers_kept(*old(self), *old(compute), mid, after, *self, *compute);
        }
        assert(compute.tree.rows() == after.rows());
        r
    }

    /// Takes a row out of the tree on behalf of this transaction.
    pub(crate) fn tree_remove(&mut self, compute: &mut EmbeddedCompute, key: &[u8]) -> (r: Result<()>)
        requires
            old(compute).wf(),
            is_key(key@),
        ensures
            forall|base: Map<PageId, Seq<u8>>| #[trigger]
                old(self).covers(old(compute), base) ==> final(self).covers(final(compute), base),
            r is Ok,
            final(compute).wf(),
            final(compute).same_but_tree(old(compute)),
            final(self).same_but_tree_dirty(old(self)),
            final(compute).tree.rows() == old(compute).tree.rows().remove(key@),
            final(compute).tree.len <= old(compute).tree.len,
            final(compute).tree.depth() <= old(compute).tree.depth(),
            final(compute).tree.provider.next_id() == old(compute).tree.provider.next_id(),
    {
        compute.tree.provider.swap_dirty(&mut self.bptree_dirty);
        let ghost mid = compute.tree;
        assert(mid.rows() == old(compute).tree.rows());
        let r = compute.tree.remove(key);
        let ghost after = compute.tree;
        compute.tree.provider.swap_dirty(&mut self.bptree_dirty);
        proof {
            lemma_covers_kept(*old(self), *old(compute), mid, after, *self, *compute);
        }
        assert(compute.tree.rows() == after.rows());
        r
    }

    pub(crate) fn find_own_page(&self, compute: &EmbeddedCompute, id: PageId) -> (r: Option<Page>)
        ensures
            match r {
                Some(p) => self.own_page(compute, id) == Some(bytes_view(p)),
                None => self.own_page(compute, id) is None,
            },
    {
        match find_page(&self.dirty, id) {
            Some(p) => {
                return Some(p);
            },
            None => {},
        }
        match find_page(&compute.page_cache, id) {
            Some(p) => {
                return Some(p);
            },
            None => {},
        }
        find_page(&self.ro_cache, id)
    }

    /// Keeps an old row in an undo record.
    pub fn append_undo(&mut self, compute: &mut EmbeddedCompute, old_row: &LeafValueRef) -> (r: Result<
        UndoPtr,
    >)
        requires
            old(self).wf(),
            bytes_view(old_row.value).len() == VALUE_SIZE,
            old(self).undo_ready(old(compute)),
        ensures
            forall|base: Map<PageId, Seq<u8>>| #[trigger]
                old(self).covers(old(compute), base) ==> final(self).covers(final(compute), base),
            final(compute).tree == old(compute).tree,
            final(compute).active_reads == old(compute).active_reads,
            final(compute).registry == old(compute).registry,
            final(self).wf(),
            final(self).kept_but_undo(old(self)),
            r is Ok ==> exists|rec: UndoRecord| #[trigger]
                rec@ == old(self).undo_fields(old_row.row()),
            undo_written(
                *old(self),
                *old(compute),
                old(self).undo_step(old(compute), old(self).undo_fields(old_row.row())),
                *final(self),
                *final(compute),
                r,
            ),
    {
        let txn_id: u64 = match self.undo_txn_id {
            Some(id) => id,
            None => {
                return Err(read_only_error());
            },
        };
        let meta_page = match find_page(&compute.page_cache, META_PAGE_ID) {
            Some(p) => p,
            None => match find_page(&self.dirty, META_PAGE_ID) {
                Some(p) => p,
                None => {
                    return Err(Error::InMemoryPageMissing(META_PAGE_ID));
                },
            },
        };
        let mut meta = match MetaPage::decode(page_bytes(&meta_page)) {
            Ok(m) => m,
            Err(e) => {
                return Err(e);
            },
        };
        rebase(&mut meta);
        let ghost f = self.undo_fields(old_row.row());
        let rec = UndoRecord {
            data_page_id: 0,
            data_slot_id: 0,
            prev: old_row.meta.undo_ptr,
            txn_id,
            txn_next: self.undo.last_record,
            old_commit_lsn: old_row.meta.commit_lsn,
            old_flags: old_row.meta.flags,
            old_value: value_array(page_bytes(&old_row.value), 0),
        };
        assert(rec@ =~= f) by {
            assert(bytes_view(old_row.value).subrange(0, VALUE_SIZE as int) =~= bytes_view(
                old_row.value,
            ));
        }
        let mut seg = self.undo;
        let placement = match self.undo.last_page_id {
            None => place_undo(&mut meta, &mut seg, None, txn_id, &rec),
            Some(cur) => match self.find_own_page(compute, cur) {
                None => {
                    return Err(Error::InMemoryPageMissing(cur));
                },
                Some(p) => place_undo(&mut meta, &mut seg, Some(&p), txn_id, &rec),
            },
        };
        let placement = match placement {
            Ok(u) => u,
            Err(e) => {
                return Err(e);
            },
        };
        self.undo = seg;
        let n: usize = placement.pages.len();
        let ghost ws = list_views(placement.pages@);
        let ghost d0 = page_views(self.dirty@);
        let ghost c0 = compute.pages();
        let mut i: usize = 0;
        while i < n
            invariant
                n == placement.pages@.len(),
                ws == list_views(placement.pages@),
                i <= n,
                self.wf(),
                !self.read_only,
                self.undo == seg,
                self.kept_but_undo(old(self)),
                compute.tree == old(compute).tree,
                compute.active_reads == old(compute).active_reads,
                compute.registry == old(compute).registry,
                page_views(self.dirty@) == written(d0, ws, i as int),
                compute.pages() == written(c0, ws, i as int),
            decreases n - i,
        {
            let e = &placement.pages[i];
            assert(ws[i as int] == (e.0, bytes_view(e.1)));
            self.write_page(compute, e.0, e.1.clone());
            i += 1;
        }
        let mp = meta.encode();
        self.write_page(compute, META_PAGE_ID, mp);
        Ok(placement.ptr)
    }

    /// What putting down an undo record leaves as it was.
    pub open spec fn kept_but_undo(&self, old: &EmbeddedTxn) -> bool {
        &&& self.read_lsn == old.read_lsn
        &&& self.guard == old.guard
        &&& self.timeout_nanos == old.timeout_nanos
        &&& self.read_only == old.read_only
        &&& self.write_attempted == old.write_attempted
        &&& self.bptree_dirty == old.bptree_dirty
        &&& self.ro_cache == old.ro_cache
        &&& self.modified == old.modified
        &&& self.undo_txn_id == old.undo_txn_id
        &&& self.intent_base_lsn == old.intent_base_lsn
    }
}

/// A change of the tree, made with the transaction's list in its place, keeps what the
/// list covers.
proof fn lemma_covers_kept(
    t0: EmbeddedTxn,
    c0: EmbeddedCompute,
    mid: PageBPlusTree<TxnPageProvider>,
    after: PageBPlusTree<TxnPageProvider>,
    t: EmbeddedTxn,
    c: EmbeddedCompute,
)
    requires
        c0.tree.wf(),
        mid.provider.pages() == c0.tree.provider.pages(),
        mid.provider.root() == c0.tree.provider.root(),
        mid.provider.next_id() == c0.tree.provider.next_id(),
        mid.provider.dirty == t0.bptree_dirty,
        mid.provider.btree_meta_page_id == c0.tree.provider.btree_meta_page_id,
        after.provider.naming() == mid.provider.naming(),
        c.tree.provider.pages() == after.provider.pages(),
        c.tree.provider.root() == after.provider.root(),
        c.tree.provider.next_id() == after.provider.next_id(),
        c.tree.provider.btree_meta_page_id == after.provider.btree_meta_page_id,
        t.bptree_dirty == after.provider.dirty,
        forall|base: Map<PageId, Seq<u8>>| #[trigger]
            mid.provider.covers(base) ==> after.provider.covers(base),
        forall|x: PageId| #[trigger]
            has_id(after.tree(), x) ==> has_id(mid.tree(), x) || mid.provider.next_id() <= x
                < after.provider.next_id(),
        listed_from(after.provider.written(), mid.provider.next_id(), after.provider.next_id()),
        after.wf(),
    ensures
        forall|base: Map<PageId, Seq<u8>>| #[trigger] t0.covers(&c0, base) ==> t.covers(&c, base),
{
    let m = c0.tree.provider.pages();
    let m2 = c.tree.provider.pages();
    let list = page_views(t0.bptree_dirty@);
    let list2 = page_views(t.bptree_dirty@);
    assert forall|base: Map<PageId, Seq<u8>>| #[trigger] t0.covers(&c0, base) implies t.covers(
        &c,
        base,
    ) by {
        let apart = m.remove_keys(list.dom());
        assert(mid.provider.covers(apart));
        assert(after.provider.covers(apart));
        assert forall|x: PageId|
            has_id(c.tree.tree(), x) || x == BTREE_META_PAGE_ID implies #[trigger] list2.contains_key(
            x,
        ) || base.contains_key(x) && base[x] == m2[x] by {
            if !list2.contains_key(x) {
                assert(m2.contains_key(x)) by {
                    if has_id(c.tree.tree(), x) {
                        lemma_tree_page(&after, x);
                    }
                }
                assert(apart.contains_key(x) && apart[x] == m2[x]);
                assert(!list.contains_key(x));
                if has_id(after.tree(), x) && !has_id(mid.tree(), x) {
                    assert(after.provider.written()->0.contains(x));
                }
            }
        }
    }
}

/// The step for a plan; `current` are the bytes of the last undo page, if there is one.
pub open spec fn placed(p: Option<UndoPlan>, current: Option<Seq<u8>>) -> UndoStep {
    match p {
        Some(plan) => UndoStep::Placed(plan),
        None => UndoStep::NotUndo(current->0),
    }
}

/// The transaction, the engine and the outcome after an undo record was put down.
pub open spec fn undo_written(
    t0: EmbeddedTxn,
    c0: EmbeddedCompute,
    step: UndoStep,
    t1: EmbeddedTxn,
    c1: EmbeddedCompute,
    r: Result<UndoPtr>,
) -> bool {
    match step {
        UndoStep::Placed(plan) => {
            &&& r == Ok::<UndoPtr, Error>(plan.ptr)
            &&& t1.undo == segment_after(t0.undo, plan.ptr)
            &&& undo_pages_written(
                page_views(t0.dirty@),
                page_views(t1.dirty@),
                c0.pages(),
                c1.pages(),
                plan,
            )
        },
        _ => {
            &&& t1.dirty == t0.dirty
            &&& t1.undo == t0.undo
            &&& c1.page_cache == c0.page_cache
            &&& match step {
                UndoStep::ReadOnly => r matches Err(e) && is_read_only_error(e),
                UndoStep::NoMeta => r matches Err(Error::InMemoryPageMissing(id)) && id
                    == META_PAGE_ID,
                UndoStep::NoPage(cur) => r matches Err(Error::InMemoryPageMissing(id)) && id == cur,
                UndoStep::BadMeta(mb) => not_meta(mb, r),
                UndoStep::NotUndo(s) => not_undo(s, r),
                UndoStep::Placed(_) => r is Ok,
            }
        },
    }
}

/// The staged pages and the cached pages after an undo record was put down: the
/// pages of the plan, and the meta page.
pub open spec fn undo_pages_written(
    d0: Map<u64, Seq<u8>>,
    d1: Map<u64, Seq<u8>>,
    c0: Map<u64, Seq<u8>>,
    c1: Map<u64, Seq<u8>>,
    plan: UndoPlan,
) -> bool {
    exists|mb: Seq<u8>| #[trigger]
        is_meta_page(mb, plan.meta) && d1 == written(
            d0,
            plan.writes,
            plan.writes.len() as int,
        ).insert(META_PAGE_ID, mb) && c1 == written(
            c0,
            plan.writes,
            plan.writes.len() as int,
        ).insert(META_PAGE_ID, mb)
}

/// The outcome of following undo records to `w` in the pages `m`.
pub open spec fn undo_outcome(m: Map<u64, Seq<u8>>, w: Walk, r: Result<Option<Vec<u8>>>) -> bool {
    match w {
        Walk::Version(None) => r == Ok::<Option<Vec<u8>>, Error>(None),
        Walk::Version(Some(v)) => r matches Ok(Some(b)) && b@ == v,
        Walk::Missing(id) => r matches Err(Error::InMemoryPageMissing(x)) && x == id,
        Walk::Unreadable(u) => unreadable(m[u.page_id], u.slot_id as int, r),
    }
}

/// What a transaction finds of a row.
pub enum RowAt {
    Value(Option<Seq<u8>>),
    Wait(u64),
    /// Following the undo records failed.
    Failed(Walk),
}

/// What a transaction finds of a row at its snapshot.
pub open spec fn version_at(t: EmbeddedTxn, c: EmbeddedCompute, key: Seq<u8>) -> RowAt {
    match c.row(key) {
        None => RowAt::Value(None),
        Some(row) => match row_seen(row.meta, t.undo_txn_id, t.read_lsn) {
            Visibility::Current => RowAt::Value(Some(row.value)),
            Visibility::Deleted => RowAt::Value(None),
            Visibility::Wait(id) => RowAt::Wait(id),
            Visibility::Undo(p) => match undo_version(t.readable(&c), p, t.read_lsn) {
                Walk::Version(v) => RowAt::Value(v),
                w => RowAt::Failed(w),
            },
        },
    }
}

/// The outcome of reading a row.
pub open spec fn read_outcome(
    t: EmbeddedTxn,
    c: EmbeddedCompute,
    key: Seq<u8>,
    r: Result<ReadStep<Option<Vec<u8>>>>,
) -> bool {
    match version_at(t, c, key) {
        RowAt::Value(None) => r == Ok::<ReadStep<Option<Vec<u8>>>, Error>(ReadStep::Done(None)),
        RowAt::Value(Some(v)) => r matches Ok(ReadStep::Done(Some(b))) && b@ == v,
        RowAt::Wait(id) => r == Ok::<ReadStep<Option<Vec<u8>>>, Error>(ReadStep::Wait(id)),
        RowAt::Failed(w) => version_result(t.readable(&c), w, r),
    }
}

/// A row that stands as it did, and whose undo records read the same, is read as before.
pub proof fn law_same_row_same_version(
    t: EmbeddedTxn,
    c0: EmbeddedCompute,
    c1: EmbeddedCompute,
    key: Seq<u8>,
)
    requires
        c1.row(key) == c0.row(key),
        t.row_reads_alike(&c0, &c1, key),
    ensures
        t.row_readable(&c1, key),
        version_at(t, c1, key) == version_at(t, c0, key),
{
    match c0.row(key) {
        None => {},
        Some(row) => match row_seen(row.meta, t.undo_txn_id, t.read_lsn) {
            Visibility::Undo(p) => {
                law_same_records_same_version(t.readable(&c0), t.readable(&c1), p, t.read_lsn);
            },
            _ => {},
        },
    }
}

/// The row that a write puts into the tree is an intent of its transaction that no one
/// has committed: it has the value, points to the undo record, and says whose it is.
pub proof fn law_intent_row_fields(
    value: Seq<u8>,
    undo_ptr: Option<UndoPtr>,
    flags: u16,
    txn_id: u64,
    lsn: u64,
)
    ensures
        intent_row(value, undo_ptr, flags, txn_id, lsn).value == value,
        intent_row(value, undo_ptr, flags, txn_id, lsn).meta.commit_lsn == 0,
        intent_row(value, undo_ptr, flags, txn_id, lsn).meta.flags == flags,
        intent_row(value, undo_ptr, flags, txn_id, lsn).meta.intent_txn_id == txn_id,
        intent_row(value, undo_ptr, flags, txn_id, lsn).meta.intent_lsn == lsn,
        undo_ptr is Some && undo_ptr->0.page_id != 0 ==> intent_row(
            value,
            undo_ptr,
            flags,
            txn_id,
            lsn,
        ).meta.undo_ptr == undo_ptr,
        undo_ptr is None ==> intent_row(value, undo_ptr, flags, txn_id, lsn).meta.undo_ptr is None,
{
}

/// The undo record of an overwritten row keeps the row: its value, commit LSN, flags and
/// older versions; and it names the transaction and its record before.
pub proof fn law_undo_record_keeps_row(t: EmbeddedTxn, old: LeafRow)
    requires
        t.undo_txn_id is Some,
    ensures
        t.undo_fields(old).old_value == old.value,
        t.undo_fields(old).old_commit_lsn == old.meta.commit_lsn,
        t.undo_fields(old).old_flags == old.meta.flags,
        t.undo_fields(old).prev == old.meta.undo_ptr,
        t.undo_fields(old).txn_id == t.undo_txn_id->0,
        t.undo_fields(old).txn_next == t.undo.last_record,
{
}

/// Another transaction's intent is in the way; a committed row, or an intent of one's own,
/// is not.
pub proof fn law_foreign_intent(row: LeafRow, own: Option<u64>)
    ensures
        is_foreign(row, own) <==> row.meta.flags & 2u16 != 0 && !(own is Some && own->0
            == row.meta.intent_txn_id),
{
}

/// A transaction times out only after its time is over, and never if it has no limit.
pub proof fn law_timeout(t: EmbeddedTxn, elapsed_nanos: u128)
    ensures
        t.timeout_nanos is None ==> !t.timed_out(elapsed_nanos),
        t.timeout_nanos is Some ==> (t.timed_out(elapsed_nanos) <==> elapsed_nanos
            > t.timeout_nanos->0),
{
}

/// A transaction reads a page as it staged it; if it did not, as it read it first; and else
/// as the engine has it.
pub proof fn law_own_pages_come_first(t: EmbeddedTxn, c: EmbeddedCompute, x: u64)
    ensures
        page_views(t.dirty@).contains_key(x) ==> t.readable(&c).contains_key(x) && t.readable(
            &c,
        )[x] == page_views(t.dirty@)[x],
        !page_views(t.dirty@).contains_key(x) && page_views(t.ro_cache@).contains_key(x)
            ==> t.readable(&c).contains_key(x) && t.readable(&c)[x] == page_views(t.ro_cache@)[x],
        !page_views(t.dirty@).contains_key(x) && !page_views(t.ro_cache@).contains_key(x)
            ==> t.readable(&c).contains_key(x) == c.pages().contains_key(x) && (
        c.pages().contains_key(x) ==> t.readable(&c)[x] == c.pages()[x]),
{
}

/// Of several writes of one page the last one stays; a page that is not written is as it
/// was.
pub proof fn law_last_page_write_stays(
    m: Map<u64, Seq<u8>>,
    ws: Seq<(u64, Seq<u8>)>,
    n: int,
    x: u64,
    i: int,
)
    requires
        0 <= n <= ws.len(),
    ensures
        0 <= i < n && ws[i].0 == x && (forall|j: int| i < j < n ==> (#[trigger] ws[j]).0 != x)
            ==> written(m, ws, n).contains_key(x) && written(m, ws, n)[x] == ws[i].1,
        (forall|j: int| 0 <= j < n ==> (#[trigger] ws[j]).0 != x) ==> written(m, ws, n).contains_key(
            x,
        ) == m.contains_key(x) && (m.contains_key(x) ==> written(m, ws, n)[x] == m[x]),
    decreases n,
{
    if n > 0 {
        law_last_page_write_stays(m, ws, n - 1, x, i);
    }
}

} // verus!
