//! Garbage: rows that were deleted, undo records that no snapshot needs, and the
//! pages that held them.
use vstd::prelude::*;

use super::page_map::{find_page, store_page};
use super::soundness::{law_gc_keeps_sound, sound};
use super::txn::{EmbeddedCompute, EmbeddedTxn};
use super::visibility::{is_tombstone, FLAG_TOMBSTONE};
use crate::active_reads::is_least;
use crate::common::{bytes_view, page_bytes, page_from_vec, Error, Page, PageId, Result, VALUE_SIZE};
use crate::key_order::is_key;
use crate::layout::copy_bytes;
use crate::meta_page::{with_free_undo, MetaFields, MetaPage};
use crate::page_bptree::node_page::{LeafRow, LeafValue, LeafValueMeta, LeafValueRef};
use crate::page_bptree::provider::AsyncPageProvider;
use crate::page_bptree::range::rows_view;
use crate::txn_page_provider::page_views;
use crate::undo_pg::{is_segment, is_undo, not_segment, not_undo, page_next_id,
    read_segment_header, segment_header_of,
    value_array, with_segment_header, write_segment_header, UndoSegmentHeader,
    SEGMENT_STATE_COMMITTED, SEGMENT_STATE_PURGED};
use crate::layout::u64_at;
use std::collections::BTreeMap;

verus! {

broadcast use vstd::std_specs::btree::group_btree_axioms;

/// What garbage collection does to a row.
pub enum RowFate {
    Keep,
    Remove,
    /// The row without its undo records.
    Trim(LeafRow),
}

/// A row that every snapshot sees as it stands needs no undo records; a deleted
/// one goes.
pub open spec fn row_fate(row: LeafRow, gc_lsn: u64) -> RowFate {
    if row.meta.commit_lsn == 0 || row.meta.commit_lsn > gc_lsn {
        RowFate::Keep
    } else if is_tombstone(row.meta.flags) {
        RowFate::Remove
    } else if row.meta.undo_ptr is Some {
        RowFate::Trim(
            LeafRow { value: row.value, meta: LeafValueMeta { undo_ptr: None, ..row.meta } },
        )
    } else {
        RowFate::Keep
    }
}

/// Keys to remove among the first `n` rows.
pub open spec fn gc_removals(rows: Seq<(Seq<u8>, LeafRow)>, gc_lsn: u64, n: int) -> Seq<Seq<u8>>
    decreases n,
{
    if n <= 0 {
        seq![]
    } else if row_fate(rows[n - 1].1, gc_lsn) is Remove {
        gc_removals(rows, gc_lsn, n - 1).push(rows[n - 1].0)
    } else {
        gc_removals(rows, gc_lsn, n - 1)
    }
}

/// Rows to rewrite among the first `n`.
pub open spec fn gc_updates(rows: Seq<(Seq<u8>, LeafRow)>, gc_lsn: u64, n: int) -> Seq<
    (Seq<u8>, LeafRow),
>
    decreases n,
{
    if n <= 0 {
        seq![]
    } else {
        match row_fate(rows[n - 1].1, gc_lsn) {
            RowFate::Trim(row) => gc_updates(rows, gc_lsn, n - 1).push((rows[n - 1].0, row)),
            _ => gc_updates(rows, gc_lsn, n - 1),
        }
    }
}

/// What a pass over rows found.
#[derive(Debug)]
pub struct GcPlan {
    pub scanned: usize,
    pub keys_to_remove: Vec<Vec<u8>>,
    pub rows_to_update: Vec<(Vec<u8>, LeafValue)>,
}

pub open spec fn byte_strings(v: Seq<Vec<u8>>) -> Seq<Seq<u8>> {
    Seq::new(v.len(), |i: int| v[i]@)
}

pub open spec fn row_pairs(v: Seq<(Vec<u8>, LeafValue)>) -> Seq<(Seq<u8>, LeafRow)> {
    Seq::new(v.len(), |i: int| (v[i].0@, v[i].1.row()))
}

/// Looks at no more than `budget` rows.
pub fn plan_gc(entries: &Vec<(Vec<u8>, LeafValueRef)>, gc_lsn: u64, budget: usize) -> (r: GcPlan)
    requires
        forall|i: int|
            0 <= i < entries@.len() ==> bytes_view((#[trigger] entries@[i]).1.value).len()
                == VALUE_SIZE,
    ensures
        r.scanned == (if budget < entries@.len() {
            budget as int
        } else {
            entries@.len() as int
        }),
        byte_strings(r.keys_to_remove@) == gc_removals(
            rows_view(entries@),
            gc_lsn,
            r.scanned as int,
        ),
        row_pairs(r.rows_to_update@) == gc_updates(rows_view(entries@), gc_lsn, r.scanned as int),
        forall|i: int|
            0 <= i < r.rows_to_update@.len() ==> (#[trigger] r.rows_to_update@[i]).1.undo_ptr
                is None,
        forall|i: int|
            0 <= i < r.rows_to_update@.len() ==> only_trimmed(
                entries@,
                (#[trigger] r.rows_to_update@[i]).0@,
                r.rows_to_update@[i].1,
            ),
{
    let mut removals: Vec<Vec<u8>> = Vec::new();
    let mut updates: Vec<(Vec<u8>, LeafValue)> = Vec::new();
    let ghost rows = rows_view(entries@);
    let total: usize = entries.len();
    let n: usize = if budget < total {
        budget
    } else {
        total
    };
    let mut i: usize = 0;
    assert(byte_strings(removals@) =~= Seq::<Seq<u8>>::empty());
    assert(row_pairs(updates@) =~= Seq::<(Seq<u8>, LeafRow)>::empty());
    while i < n
        invariant
            n <= entries@.len(),
            i <= n,
            rows == rows_view(entries@),
            forall|j: int|
                0 <= j < entries@.len() ==> bytes_view((#[trigger] entries@[j]).1.value).len()
                    == VALUE_SIZE,
            byte_strings(removals@) == gc_removals(rows, gc_lsn, i as int),
            row_pairs(updates@) == gc_updates(rows, gc_lsn, i as int),
            forall|j: int| 0 <= j < updates@.len() ==> (#[trigger] updates@[j]).1.undo_ptr is None,
            forall|j: int|
                0 <= j < updates@.len() ==> only_trimmed(
                    entries@,
                    (#[trigger] updates@[j]).0@,
                    updates@[j].1,
                ),
        decreases n - i,
    {
        let e = &entries[i];
        let ghost fate = row_fate(rows[i as int].1, gc_lsn);
        let meta = &e.1.meta;
        if meta.commit_lsn == 0 || meta.commit_lsn > gc_lsn {
            i += 1;
            continue;
        }
        if (meta.flags & FLAG_TOMBSTONE) != 0 {
            let ghost before = byte_strings(removals@);
            removals.push(copy_bytes(e.0.as_slice()));
            assert(byte_strings(removals@) =~= before.push(e.0@));
            i += 1;
            continue;
        }
        if meta.undo_ptr.is_some() {
            let ghost before = row_pairs(updates@);
            let row = LeafValue {
                value: value_array(page_bytes(&e.1.value), 0),
                commit_lsn: meta.commit_lsn,
                undo_ptr: None,
                flags: meta.flags,
                intent_txn_id: meta.intent_txn_id,
                intent_lsn: meta.intent_lsn,
            };
            assert(bytes_view(e.1.value).subrange(0, VALUE_SIZE as int) =~= bytes_view(e.1.value));
            let ghost lr = row.row();
            assert(row.value@ == bytes_view(entries@[i as int].1.value));
            assert(only_trimmed(entries@, e.0@, row));
            updates.push((copy_bytes(e.0.as_slice()), row));
            assert(row_pairs(updates@) =~= before.push((e.0@, lr)));
        }
        i += 1;
    }
    GcPlan { scanned: n, keys_to_remove: removals, rows_to_update: updates }
}

/// The row stands among the entries, with the same value, commit LSN, flags and intent.
pub open spec fn only_trimmed(
    entries: Seq<(Vec<u8>, LeafValueRef)>,
    key: Seq<u8>,
    row: LeafValue,
) -> bool {
    exists|j: int|
        0 <= j < entries.len() && (#[trigger] entries[j]).0@ == key && row.value@ == bytes_view(
            entries[j].1.value,
        ) && row.commit_lsn == entries[j].1.meta.commit_lsn && row.flags == entries[j].1.meta.flags
            && row.intent_txn_id == entries[j].1.meta.intent_txn_id && row.intent_lsn
            == entries[j].1.meta.intent_lsn
}

/// Trimming a row changes nothing for a snapshot from `gc_lsn` on, nor does taking
/// a deleted row out.
pub proof fn law_gc_row_is_unseen(row: LeafRow, gc_lsn: u64, own: Option<u64>, read_lsn: u64)
    requires
        gc_lsn <= read_lsn,
        !super::visibility::is_intent(row.meta.flags),
    ensures
        row_fate(row, gc_lsn) is Remove ==> super::visibility::row_seen(row.meta, own, read_lsn)
            is Deleted,
        row_fate(row, gc_lsn) matches RowFate::Trim(t) ==> t.value == row.value
            && super::visibility::row_seen(t.meta, own, read_lsn) is Current
            && super::visibility::row_seen(row.meta, own, read_lsn) is Current,
{
}

impl EmbeddedCompute {
    /// Safe GC watermark: minimum active read_lsn if any, otherwise durable_lsn.
    pub fn gc_lsn(&self, durable_lsn: u64) -> (r: u64)
        ensures
            if self.active_reads.reads() == Map::<u64, u64>::empty() {
                r == durable_lsn
            } else {
                is_least(self.active_reads.reads(), r)
            },
            forall|id: u64| #[trigger]
                self.active_reads.reads().contains_key(id) ==> r <= self.active_reads.reads()[id],
    {
        match self.active_reads.min_read_lsn() {
            Some(lsn) => {
                proof {
                    let id = choose|id: u64| #[trigger]
                        self.active_reads.reads().contains_key(id)
                            && self.active_reads.reads()[id] == lsn;
                    assert(self.active_reads.reads() != Map::<u64, u64>::empty()) by {
                        assert(!Map::<u64, u64>::empty().contains_key(id));
                    }
                }
                lsn
            },
            None => durable_lsn,
        }
    }
}

/// The pages that hang on `pid`, one behind another, end after at most `n`.
pub open spec fn pages_end(m: Map<u64, Seq<u8>>, pid: u64, n: nat) -> bool
    decreases n,
{
    pid == 0 || (n > 0 && (m.contains_key(pid) && is_undo(m[pid]) ==> pages_end(
        m,
        u64_at(m[pid], 8) as u64,
        (n - 1) as nat,
    )))
}

/// What cleaning up leads to: a result, or a page that stops it.
pub enum Cleaned<T> {
    Done(T),
    /// The page is missing.
    Missing(u64),
    /// The page, with these bytes, is no undo page.
    NotUndo(Seq<u8>),
    /// The page, with these bytes, is no first page of a segment.
    NotSegment(Seq<u8>),
}

/// The error of the page that stopped the cleaning up.
pub open spec fn clean_error<T, U>(x: Cleaned<T>, r: Result<U>) -> bool {
    match x {
        Cleaned::Done(_) => r is Ok,
        Cleaned::Missing(id) => r matches Err(Error::InMemoryPageMissing(y)) && y == id,
        Cleaned::NotUndo(s) => not_undo(s, r),
        Cleaned::NotSegment(s) => not_segment(s, r),
    }
}

/// The meta page after the pages from `pid` on were set free.
pub open spec fn freed(m: Map<u64, Seq<u8>>, meta: MetaFields, pid: u64, n: nat) -> Cleaned<
    MetaFields,
>
    decreases n,
{
    if pid == 0 || n == 0 {
        Cleaned::Done(meta)
    } else if !m.contains_key(pid) {
        Cleaned::Missing(pid)
    } else if !is_undo(m[pid]) {
        Cleaned::NotUndo(m[pid])
    } else {
        freed(m, with_free_undo(meta, pid), u64_at(m[pid], 8) as u64, (n - 1) as nat)
    }
}

pub open spec fn pages_finite(m: Map<u64, Seq<u8>>, pid: u64) -> bool {
    exists|n: nat| #[trigger] pages_end(m, pid, n)
}

/// The meta page after all pages from `pid` on were set free.
pub open spec fn all_freed(m: Map<u64, Seq<u8>>, meta: MetaFields, pid: u64) -> Cleaned<MetaFields> {
    freed(m, meta, pid, choose|n: nat| #[trigger] pages_end(m, pid, n))
}

/// Sets the pages from `pid` on free.
fn free_pages(cache: &BTreeMap<u64, Page>, meta: &mut MetaPage, pid: PageId) -> (r: Result<()>)
    requires
        pages_finite(page_views(cache@), pid),
    ensures
        match all_freed(page_views(cache@), old(meta)@, pid) {
            Cleaned::Done(m1) => r is Ok && final(meta)@ == m1,
            x => clean_error(x, r),
        },
{
    let ghost m = page_views(cache@);
    let ghost n0: nat = choose|n: nat| #[trigger] pages_end(m, pid, n);
    let ghost mut n: nat = n0;
    let mut cur: PageId = pid;
    while cur != 0
        invariant
            m == page_views(cache@),
            pages_end(m, cur, n),
            freed(m, old(meta)@, pid, n0) == freed(m, meta@, cur, n),
            n0 == choose|n: nat| #[trigger] pages_end(m, pid, n),
        decreases n,
    {
        let page = match find_page(cache, cur) {
            Some(p) => p,
            None => {
                return Err(Error::InMemoryPageMissing(cur));
            },
        };
        let next: PageId = match page_next_id(page_bytes(&page)) {
            Ok(x) => x,
            Err(e) => {
                return Err(e);
            },
        };
        meta.push_free_undo(cur);
        cur = next;
        proof {
            n = (n - 1) as nat;
        }
    }
    Ok(())
}

/// A committed segment that no snapshot needs.
pub open spec fn purgeable(m: Map<u64, Seq<u8>>, head: u64, gc_lsn: u64) -> bool {
    m.contains_key(head) && is_segment(m[head]) && segment_header_of(m[head]).state
        == SEGMENT_STATE_COMMITTED && segment_header_of(m[head]).commit_lsn <= gc_lsn
}

/// The history from `head` on: going through the segments that can be purged ends
/// after at most `n`, and so does going through the pages of each.
pub open spec fn history_ends(m: Map<u64, Seq<u8>>, head: u64, gc_lsn: u64, n: nat) -> bool
    decreases n,
{
    head == 0 || (n > 0 && (purgeable(m, head, gc_lsn) ==> pages_finite(
        m,
        segment_header_of(m[head]).first_page_id,
    ) && history_ends(m, segment_header_of(m[head]).history_next, gc_lsn, (n - 1) as nat)))
}

pub open spec fn purged_header(h: UndoSegmentHeader) -> UndoSegmentHeader {
    UndoSegmentHeader { state: SEGMENT_STATE_PURGED, history_prev: 0, history_next: 0, ..h }
}

/// The meta page and the pages to write after the history was purged.
pub open spec fn purged(
    m: Map<u64, Seq<u8>>,
    meta: MetaFields,
    dirty: Map<u64, Seq<u8>>,
    gc_lsn: u64,
    n: nat,
) -> Cleaned<(MetaFields, Map<u64, Seq<u8>>)>
    decreases n,
{
    let head = meta.undo_history_head;
    if head == 0 || n == 0 {
        Cleaned::Done((meta, dirty))
    } else if !m.contains_key(head) {
        Cleaned::Missing(head)
    } else if !is_segment(m[head]) {
        Cleaned::NotSegment(m[head])
    } else if !purgeable(m, head, gc_lsn) {
        Cleaned::Done((meta, dirty))
    } else {
        let h = segment_header_of(m[head]);
        let next = h.history_next;
        if next != 0 && !m.contains_key(next) {
            Cleaned::Missing(next)
        } else if next != 0 && !is_segment(m[next]) {
            Cleaned::NotSegment(m[next])
        } else {
            let meta1 = if next == 0 {
                MetaFields { undo_history_head: 0, undo_history_tail: 0, ..meta }
            } else {
                MetaFields { undo_history_head: next, ..meta }
            };
            let dirty1 = if next == 0 {
                dirty
            } else {
                dirty.insert(
                    next,
                    with_segment_header(
                        m[next],
                        UndoSegmentHeader { history_prev: 0, ..segment_header_of(m[next]) },
                    ),
                )
            };
            match all_freed(m, meta1, h.first_page_id) {
                Cleaned::Missing(id) => Cleaned::Missing(id),
                Cleaned::NotUndo(s) => Cleaned::NotUndo(s),
                Cleaned::NotSegment(s) => Cleaned::NotSegment(s),
                Cleaned::Done(meta2) => purged(
                    m,
                    meta2,
                    dirty1.insert(head, with_segment_header(m[head], purged_header(h))),
                    gc_lsn,
                    (n - 1) as nat,
                ),
            }
        }
    }
}

proof fn lemma_freed_keeps_history(m: Map<u64, Seq<u8>>, meta: MetaFields, pid: u64, n: nat)
    ensures
        freed(m, meta, pid, n) matches Cleaned::Done(x) ==> x.undo_history_head == meta.undo_history_head,
    decreases n,
{
    if pid != 0 && n > 0 && m.contains_key(pid) && is_undo(m[pid]) {
        lemma_freed_keeps_history(
            m,
            with_free_undo(meta, pid),
            u64_at(m[pid], 8) as u64,
            (n - 1) as nat,
        );
    }
}

pub open spec fn history_finite(m: Map<u64, Seq<u8>>, head: u64, gc_lsn: u64) -> bool {
    exists|n: nat| #[trigger] history_ends(m, head, gc_lsn, n)
}

/// The meta page and the pages to write after the history was purged.
pub open spec fn history_purged(m: Map<u64, Seq<u8>>, meta: MetaFields, gc_lsn: u64) -> Cleaned<
    (MetaFields, Map<u64, Seq<u8>>),
> {
    purged(
        m,
        meta,
        Map::empty(),
        gc_lsn,
        choose|n: nat| #[trigger] history_ends(m, meta.undo_history_head, gc_lsn, n),
    )
}

impl EmbeddedCompute {
    /// Purges the segments at the beginning of the undo history that no snapshot
    /// needs: their pages are set free. Returns the pages to write, without the
    /// meta page.
    pub fn gc_purge_undo_segments(&self, meta: &mut MetaPage, gc_lsn: u64) -> (r: Result<
        BTreeMap<u64, Page>,
    >)
        requires
            history_finite(self.pages(), old(meta).undo_history_head, gc_lsn),
        ensures
            match history_purged(self.pages(), old(meta)@, gc_lsn) {
                Cleaned::Done((m1, d1)) => r matches Ok(d) && page_views(d@) == d1 && final(meta)@ == m1,
                x => clean_error(x, r),
            },
    {
        let ghost m = self.pages();
        let ghost n0: nat = choose|n: nat| #[trigger]
            history_ends(m, meta.undo_history_head, gc_lsn, n);
        let ghost mut n: nat = n0;
        let mut dirty: BTreeMap<u64, Page> = BTreeMap::new();
        assert(page_views(dirty@) =~= Map::empty());
        loop
            invariant
                m == self.pages(),
                history_ends(m, meta.undo_history_head, gc_lsn, n),
                purged(m, old(meta)@, Map::empty(), gc_lsn, n0) == purged(
                    m,
                    meta@,
                    page_views(dirty@),
                    gc_lsn,
                    n,
                ),
                n0 == choose|n: nat| #[trigger]
                    history_ends(m, old(meta).undo_history_head, gc_lsn, n),
            decreases n,
        {
            let head: PageId = meta.undo_history_head;
            if head == 0 {
                return Ok(dirty);
            }
            let page = match find_page(&self.page_cache, head) {
                Some(p) => p,
                None => {
                    return Err(Error::InMemoryPageMissing(head));
                },
            };
            let mut head_buf: Vec<u8> = copy_bytes(page_bytes(&page));
            let mut hdr = match read_segment_header(head_buf.as_slice()) {
                Ok(h) => h,
                Err(e) => {
                    return Err(e);
                },
            };
            if hdr.state != SEGMENT_STATE_COMMITTED || hdr.commit_lsn > gc_lsn {
                return Ok(dirty);
            }
            let next: PageId = hdr.history_next;
            if next == 0 {
                meta.undo_history_head = 0;
                meta.undo_history_tail = 0;
            } else {
                meta.undo_history_head = next;
                let next_page = match find_page(&self.page_cache, next) {
                    Some(p) => p,
                    None => {
                        return Err(Error::InMemoryPageMissing(next));
                    },
                };
                let mut next_buf: Vec<u8> = copy_bytes(page_bytes(&next_page));
                let mut next_hdr = match read_segment_header(next_buf.as_slice()) {
                    Ok(h) => h,
                    Err(e) => {
                        return Err(e);
                    },
                };
                next_hdr.history_prev = 0;
                match write_segment_header(&mut next_buf, next_hdr) {
                    Ok(()) => {},
                    Err(e) => {
                        return Err(e);
                    },
                }
                store_page(&mut dirty, next, page_from_vec(next_buf));
            }
            let ghost meta1 = meta@;
            match free_pages(&self.page_cache, meta, hdr.first_page_id) {
                Ok(()) => {},
                Err(e) => {
                    return Err(e);
                },
            }
            proof {
                let first = hdr.first_page_id;
                let k = choose|k: nat| #[trigger] pages_end(m, first, k);
                lemma_freed_keeps_history(m, meta1, first, k);
            }
            hdr.state = SEGMENT_STATE_PURGED;
            hdr.history_prev = 0;
            hdr.history_next = 0;
            match write_segment_header(&mut head_buf, hdr) {
                Ok(()) => {},
                Err(e) => {
                    return Err(e);
                },
            }
            store_page(&mut dirty, head, page_from_vec(head_buf));
            proof {
                n = (n - 1) as nat;
            }
        }
    }
}

impl EmbeddedTxn {
    /// Carries out a pass: rows go, or lose their undo records.
    pub fn apply_gc(&mut self, compute: &mut EmbeddedCompute, plan: GcPlan) -> (r: Result<()>)
        requires
            old(self).wf(),
            old(compute).wf(),
            forall|i: int|
                0 <= i < plan.keys_to_remove@.len() ==> is_key(
                    (#[trigger] plan.keys_to_remove@[i])@,
                ),
            forall|i: int|
                0 <= i < plan.rows_to_update@.len() ==> is_key(
                    (#[trigger] plan.rows_to_update@[i]).0@,
                ),
            super::commit::can_take(old(compute), plan.rows_to_update@.len() as int),
        ensures
            forall|base: Map<PageId, Seq<u8>>| #[trigger]
                old(self).covers(old(compute), base) ==> final(self).covers(final(compute), base),
            r is Ok,
            final(compute).wf(),
            final(compute).same_but_tree(old(compute)),
            final(self).same_but_tree_dirty(old(self)),
            (forall|i: int|
                0 <= i < plan.rows_to_update@.len() ==> (
                #[trigger] plan.rows_to_update@[i]).1.undo_ptr is None) ==> forall|floor: u64|
                #[trigger] sound(old(compute), floor) ==> sound(final(compute), floor),
            final(compute).tree.rows() == rows_put(
                rows_dropped(
                    old(compute).tree.rows(),
                    byte_strings(plan.keys_to_remove@),
                    plan.keys_to_remove@.len() as int,
                ),
                row_pairs(plan.rows_to_update@),
                plan.rows_to_update@.len() as int,
            ),
    {
        let mut plan = plan;
        let ghost rows0 = compute.tree.rows();
        let ghost ks = byte_strings(plan.keys_to_remove@);
        let ghost ups = row_pairs(plan.rows_to_update@);
        let n: usize = plan.keys_to_remove.len();
        let mut i: usize = 0;
        while i < n
            invariant
                forall|base: Map<PageId, Seq<u8>>| #[trigger]
                    old(self).covers(old(compute), base) ==> self.covers(compute, base),
                n == plan.keys_to_remove@.len(),
                ks == byte_strings(plan.keys_to_remove@),
                i <= n,
                compute.wf(),
                compute.same_but_tree(old(compute)),
                self.same_but_tree_dirty(old(self)),
                compute.tree.len <= old(compute).tree.len,
                compute.tree.depth() <= old(compute).tree.depth(),
                compute.tree.provider.next_id() == old(compute).tree.provider.next_id(),
                forall|j: int|
                    0 <= j < plan.keys_to_remove@.len() ==> is_key(
                        (#[trigger] plan.keys_to_remove@[j])@,
                    ),
                compute.tree.rows() == rows_dropped(rows0, ks, i as int),
            decreases n - i,
        {
            assert(is_key(plan.keys_to_remove@[i as int]@));
            assert(ks[i as int] == plan.keys_to_remove@[i as int]@);
            match self.tree_remove(compute, plan.keys_to_remove[i].as_slice()) {
                Ok(()) => {},
                Err(e) => {
                    return Err(e);
                },
            }
            i += 1;
        }
        let ghost rows1 = compute.tree.rows();
        let ghost d0 = compute.tree.depth();
        let ghost n0 = compute.tree.provider.next_id();
        let ghost l0 = compute.tree.len;
        let k: usize = plan.rows_to_update.len();
        let mut j: usize = 0;
        proof {
            let d = old(compute).tree.depth();
            assert(k * (d0 + k + 3) <= k * (d + k + 3)) by (nonlinear_arith)
                requires
                    d0 <= d,
                    0 <= k,
            ;
        }
        while j < k
            invariant
                forall|base: Map<PageId, Seq<u8>>| #[trigger]
                    old(self).covers(old(compute), base) ==> self.covers(compute, base),
                k == plan.rows_to_update@.len(),
                ups == row_pairs(plan.rows_to_update@),
                j <= k,
                n0 + k * (d0 + k + 3) <= u64::MAX,
                l0 + k <= u64::MAX,
                compute.wf(),
                compute.same_but_tree(old(compute)),
                self.same_but_tree_dirty(old(self)),
                compute.tree.depth() <= d0 + j,
                compute.tree.provider.next_id() <= n0 + j * (d0 + k + 3),
                compute.tree.len <= l0 + j,
                forall|x: int|
                    0 <= x < plan.rows_to_update@.len() ==> is_key(
                        (#[trigger] plan.rows_to_update@[x]).0@,
                    ),
                compute.tree.rows() == rows_put(rows1, ups, j as int),
            decreases k - j,
        {
            assert(is_key(plan.rows_to_update@[j as int].0@));
            let e = &plan.rows_to_update[j];
            let row = LeafValue {
                value: value_array(e.1.value.as_slice(), 0),
                commit_lsn: e.1.commit_lsn,
                undo_ptr: e.1.undo_ptr,
                flags: e.1.flags,
                intent_txn_id: e.1.intent_txn_id,
                intent_lsn: e.1.intent_lsn,
            };
            assert(row.row() == e.1.row()) by {
                assert(e.1.value@.subrange(0, VALUE_SIZE as int) =~= e.1.value@);
            }
            assert(ups[j as int] == (e.0@, e.1.row()));
            proof {
                super::commit::lemma_ids_left(
                    n0,
                    d0 as int,
                    k as int,
                    j as int,
                    compute.tree.provider.next_id(),
                    compute.tree.depth() as int,
                );
            }
            match self.tree_insert(compute, e.0.as_slice(), row) {
                Ok(()) => {},
                Err(x) => {
                    return Err(x);
                },
            }
            j += 1;
        }
        proof {
            assert forall|floor: u64| #[trigger]
                sound(old(compute), floor) && (forall|i: int|
                    0 <= i < plan.rows_to_update@.len() ==> (
                    #[trigger] plan.rows_to_update@[i]).1.undo_ptr is None) implies sound(
                compute,
                floor,
            ) by {
                assert forall|i: int| 0 <= i < ups.len() implies (
                #[trigger] ups[i]).1.meta.undo_ptr is None by {
                    assert(plan.rows_to_update@[i].1.undo_ptr is None);
                }
                law_gc_keeps_sound(*old(compute), *compute, ks, ups, floor);
            }
        }
        Ok(())
    }
}

/// The rows without the first `n` of the keys.
pub open spec fn rows_dropped(rows: Map<Seq<u8>, LeafRow>, ks: Seq<Seq<u8>>, n: int) -> Map<
    Seq<u8>,
    LeafRow,
>
    decreases n,
{
    if n <= 0 {
        rows
    } else {
        rows_dropped(rows, ks, n - 1).remove(ks[n - 1])
    }
}

/// The rows with the first `n` of the new ones.
pub open spec fn rows_put(rows: Map<Seq<u8>, LeafRow>, ups: Seq<(Seq<u8>, LeafRow)>, n: int) -> Map<
    Seq<u8>,
    LeafRow,
>
    decreases n,
{
    if n <= 0 {
        rows
    } else {
        rows_put(rows, ups, n - 1).insert(ups[n - 1].0, ups[n - 1].1)
    }
}

/// What garbage collection makes of a row: an intent and a row that some snapshot may not
/// see yet stay as they are, a deleted row goes, and of any other nothing but the undo
/// pointer is taken.
pub proof fn law_gc_touches_only_the_undo_pointer(row: LeafRow, gc_lsn: u64)
    ensures
        row.meta.commit_lsn == 0 || row.meta.commit_lsn > gc_lsn ==> row_fate(row, gc_lsn) is Keep,
        row_fate(row, gc_lsn) is Remove <==> row.meta.flags & 1u16 != 0 && 0 < row.meta.commit_lsn
            <= gc_lsn,
        row_fate(row, gc_lsn) is Trim <==> row.meta.flags & 1u16 == 0 && 0 < row.meta.commit_lsn
            <= gc_lsn && row.meta.undo_ptr is Some,
        row_fate(row, gc_lsn) matches RowFate::Trim(t) ==> {
            &&& t.value == row.value
            &&& t.meta.commit_lsn == row.meta.commit_lsn
            &&& t.meta.flags == row.meta.flags
            &&& t.meta.intent_txn_id == row.meta.intent_txn_id
            &&& t.meta.intent_lsn == row.meta.intent_lsn
            &&& t.meta.undo_ptr is None
        },
{
}

proof fn lemma_removals_listed(rows: Seq<(Seq<u8>, LeafRow)>, gc_lsn: u64, n: int, k: Seq<u8>)
    requires
        0 <= n <= rows.len(),
    ensures
        gc_removals(rows, gc_lsn, n).contains(k) <==> exists|i: int|
            0 <= i < n && (#[trigger] rows[i]).0 == k && row_fate(rows[i].1, gc_lsn) is Remove,
    decreases n,
{
    if n > 0 {
        lemma_removals_listed(rows, gc_lsn, n - 1, k);
        let before = gc_removals(rows, gc_lsn, n - 1);
        let all = gc_removals(rows, gc_lsn, n);
        if before.contains(k) {
            let j = before.index_of(k);
            assert(all[j] == k);
            let i = choose|i: int|
                0 <= i < n - 1 && (#[trigger] rows[i]).0 == k && row_fate(rows[i].1, gc_lsn)
                    is Remove;
            assert(0 <= i < n && rows[i].0 == k);
        }
        if all.contains(k) && !before.contains(k) {
            let j = all.index_of(k);
            if j < before.len() {
                assert(before[j] == k);
            }
            assert(rows[n - 1].0 == k);
        }
        if row_fate(rows[n - 1].1, gc_lsn) is Remove && rows[n - 1].0 == k {
            assert(all.last() == k);
        }
    }
}

proof fn lemma_updates_listed(rows: Seq<(Seq<u8>, LeafRow)>, gc_lsn: u64, n: int)
    requires
        0 <= n <= rows.len(),
    ensures
        forall|j: int|
            0 <= j < gc_updates(rows, gc_lsn, n).len() ==> exists|i: int|
                0 <= i < n && (#[trigger] rows[i]).0 == (#[trigger] gc_updates(
                    rows,
                    gc_lsn,
                    n,
                )[j]).0 && row_fate(rows[i].1, gc_lsn) == RowFate::Trim(
                    gc_updates(rows, gc_lsn, n)[j].1,
                ),
        forall|i: int|
            0 <= i < n && row_fate((#[trigger] rows[i]).1, gc_lsn) is Trim ==> exists|j: int|
                0 <= j < gc_updates(rows, gc_lsn, n).len() && (#[trigger] gc_updates(
                    rows,
                    gc_lsn,
                    n,
                )[j]).0 == rows[i].0,
    decreases n,
{
    if n > 0 {
        lemma_updates_listed(rows, gc_lsn, n - 1);
        let before = gc_updates(rows, gc_lsn, n - 1);
        let all = gc_updates(rows, gc_lsn, n);
        assert forall|j: int| 0 <= j < all.len() implies exists|i: int|
            0 <= i < n && (#[trigger] rows[i]).0 == (#[trigger] all[j]).0 && row_fate(
                rows[i].1,
                gc_lsn,
            ) == RowFate::Trim(all[j].1) by {
            if j < before.len() {
                assert(all[j] == before[j]);
                let i = choose|i: int|
                    0 <= i < n - 1 && (#[trigger] rows[i]).0 == before[j].0 && row_fate(
                        rows[i].1,
                        gc_lsn,
                    ) == RowFate::Trim(before[j].1);
                assert(0 <= i < n && rows[i].0 == all[j].0);
            } else {
                assert(rows[n - 1].0 == all[j].0);
            }
        }
        assert forall|i: int| 0 <= i < n && row_fate((#[trigger] rows[i]).1, gc_lsn) is Trim implies
            exists|j: int| 0 <= j < all.len() && (#[trigger] all[j]).0 == rows[i].0 by {
            if i < n - 1 {
                let j = choose|j: int|
                    0 <= j < before.len() && (#[trigger] before[j]).0 == rows[i].0;
                assert(all[j] == before[j]);
            } else {
                assert(all[all.len() - 1].0 == rows[i].0);
            }
        }
    }
}

proof fn lemma_dropped(rows: Map<Seq<u8>, LeafRow>, ks: Seq<Seq<u8>>, n: int, k: Seq<u8>)
    requires
        0 <= n <= ks.len(),
    ensures
        ({
            let gone = exists|i: int| 0 <= i < n && #[trigger] ks[i] == k;
            let after = rows_dropped(rows, ks, n);
            &&& after.contains_key(k) == (rows.contains_key(k) && !gone)
            &&& after.contains_key(k) ==> after[k] == rows[k]
        }),
    decreases n,
{
    if n > 0 {
        lemma_dropped(rows, ks, n - 1, k);
        if exists|i: int| 0 <= i < n - 1 && #[trigger] ks[i] == k {
            let i = choose|i: int| 0 <= i < n - 1 && #[trigger] ks[i] == k;
            assert(0 <= i < n && ks[i] == k);
        }
        if exists|i: int| 0 <= i < n && #[trigger] ks[i] == k {
            let i = choose|i: int| 0 <= i < n && #[trigger] ks[i] == k;
            if i < n - 1 {
                assert(0 <= i < n - 1 && ks[i] == k);
            }
        }
        if ks[n - 1] == k {
            assert(0 <= n - 1 < n && ks[n - 1] == k);
        }
    }
}

proof fn lemma_put(rows: Map<Seq<u8>, LeafRow>, ups: Seq<(Seq<u8>, LeafRow)>, n: int, k: Seq<u8>)
    requires
        0 <= n <= ups.len(),
    ensures
        ({
            let after = rows_put(rows, ups, n);
            if exists|i: int| 0 <= i < n && (#[trigger] ups[i]).0 == k {
                after.contains_key(k) && exists|i: int|
                    0 <= i < n && (#[trigger] ups[i]).0 == k && after[k] == ups[i].1
            } else {
                after.contains_key(k) == rows.contains_key(k) && (rows.contains_key(k) ==> after[k]
                    == rows[k])
            }
        }),
    decreases n,
{
    if n > 0 {
        lemma_put(rows, ups, n - 1, k);
        if ups[n - 1].0 == k {
            assert(0 <= n - 1 < n && ups[n - 1].0 == k);
        } else {
            if exists|i: int| 0 <= i < n && (#[trigger] ups[i]).0 == k {
                let i = choose|i: int| 0 <= i < n && (#[trigger] ups[i]).0 == k;
                assert(0 <= i < n - 1 && ups[i].0 == k);
                let j = choose|j: int|
                    0 <= j < n - 1 && (#[trigger] ups[j]).0 == k && rows_put(rows, ups, n - 1)[k]
                        == ups[j].1;
                assert(0 <= j < n && ups[j].0 == k);
            }
        }
    }
}

/// A pass of garbage collection over all rows changes nothing of a row that it keeps but
/// the undo pointer: its value, commit LSN, flags and intent are as before. A row goes
/// exactly if it is deleted and every snapshot from `gc_lsn` on sees it so, no row comes,
/// and no row that is left carries undo records which none of these snapshots needs.
///
/// `list` holds every row of the tree once.
pub proof fn law_gc_pass_keeps_rows(
    rows: Map<Seq<u8>, LeafRow>,
    list: Seq<(Seq<u8>, LeafRow)>,
    gc_lsn: u64,
    k: Seq<u8>,
)
    requires
        forall|i: int|
            0 <= i < list.len() ==> rows.contains_key((#[trigger] list[i]).0) && rows[list[i].0]
                == list[i].1,
        forall|k: Seq<u8>| #[trigger]
            rows.contains_key(k) ==> exists|i: int| 0 <= i < list.len() && (#[trigger] list[i]).0 == k,
    ensures
        ({
            let n = list.len() as int;
            let gone = gc_removals(list, gc_lsn, n);
            let ups = gc_updates(list, gc_lsn, n);
            let after = rows_put(
                rows_dropped(rows, gone, gone.len() as int),
                ups,
                ups.len() as int,
            );
            let row = rows[k];
            let done = 0 < row.meta.commit_lsn <= gc_lsn;
            &&& after.contains_key(k) <==> rows.contains_key(k) && !(done && row.meta.flags & 1u16
                != 0)
            &&& after.contains_key(k) ==> {
                &&& after[k].value == row.value
                &&& after[k].meta.commit_lsn == row.meta.commit_lsn
                &&& after[k].meta.flags == row.meta.flags
                &&& after[k].meta.intent_txn_id == row.meta.intent_txn_id
                &&& after[k].meta.intent_lsn == row.meta.intent_lsn
                &&& after[k].meta.undo_ptr == (if done {
                    None
                } else {
                    row.meta.undo_ptr
                })
            }
        }),
{
    let n = list.len() as int;
    let gone = gc_removals(list, gc_lsn, n);
    let ups = gc_updates(list, gc_lsn, n);
    let mid = rows_dropped(rows, gone, gone.len() as int);
    lemma_removals_listed(list, gc_lsn, n, k);
    lemma_updates_listed(list, gc_lsn, n);
    lemma_dropped(rows, gone, gone.len() as int, k);
    lemma_put(mid, ups, ups.len() as int, k);
    assert(gone.contains(k) <==> exists|i: int| 0 <= i < gone.len() && #[trigger] gone[i] == k);
    if exists|j: int| 0 <= j < ups.len() && (#[trigger] ups[j]).0 == k {
        let after = rows_put(mid, ups, ups.len() as int);
        let j = choose|j: int|
            0 <= j < ups.len() && (#[trigger] ups[j]).0 == k && after[k] == ups[j].1;
        let i = choose|i: int|
            0 <= i < n && (#[trigger] list[i]).0 == ups[j].0 && row_fate(list[i].1, gc_lsn)
                == RowFate::Trim(ups[j].1);
        assert(list[i].1 == rows[k]);
    } else if rows.contains_key(k) {
        let i = choose|i: int| 0 <= i < list.len() && (#[trigger] list[i]).0 == k;
        assert(list[i].1 == rows[k]);
    }
    if gone.contains(k) {
        let i = choose|i: int|
            0 <= i < n && (#[trigger] list[i]).0 == k && row_fate(list[i].1, gc_lsn) is Remove;
        assert(list[i].1 == rows[k]);
    }
}

/// A row that garbage collection trimmed is given back as it was committed when it is
/// overwritten afterwards and the write is taken back: its value, commit LSN and flags
/// are those that it had before the pass.
///
/// `u` is the undo record that the write put down for the trimmed row.
pub proof fn law_abort_after_gc_restores_row(
    m: Map<u64, Seq<u8>>,
    row: LeafRow,
    gc_lsn: u64,
    intent: LeafRow,
    u: crate::undo_pg::UndoPtr,
    txn_id: u64,
)
    requires
        row_fate(row, gc_lsn) is Trim,
        !super::visibility::is_intent(row.meta.flags),
        row.meta.intent_txn_id == 0,
        row.meta.intent_lsn == 0,
        super::visibility::is_intent(intent.meta.flags),
        intent.meta.intent_txn_id == txn_id,
        intent.meta.undo_ptr == Some(u),
        super::visibility::undo_here(m, u),
        crate::undo_pg::slot_readable(m[u.page_id], u.slot_id as int),
        ({
            let t = row_fate(row, gc_lsn)->Trim_0;
            let f = super::visibility::undo_at(m, u);
            &&& f.old_commit_lsn == t.meta.commit_lsn
            &&& f.old_flags == t.meta.flags
            &&& f.old_value == t.value
            &&& f.prev == t.meta.undo_ptr
        }),
    ensures
        super::resolve::resolution(m, Some(intent), txn_id) matches super::resolve::Resolution::Put(
            back,
        ) && back.value == row.value && back.meta.commit_lsn == row.meta.commit_lsn
            && back.meta.flags == row.meta.flags && back.meta.intent_txn_id == 0
            && back.meta.intent_lsn == 0,
{
    let t = row_fate(row, gc_lsn)->Trim_0;
    super::resolve::law_abort_restores_committed_row(m, t, intent, u, txn_id);
}

/// A segment of the history can be purged exactly if it is committed, and no later than the
/// oldest snapshot.
pub proof fn law_what_is_purged(m: Map<u64, Seq<u8>>, head: u64, gc_lsn: u64)
    requires
        m.contains_key(head),
        is_segment(m[head]),
    ensures
        purgeable(m, head, gc_lsn) <==> m[head][40] == 1 && u64_at(m[head], 32) <= gc_lsn,
{
}

/// A purged segment says so and hangs on no other; what else its header says stays.
pub proof fn law_purged_segment(h: UndoSegmentHeader)
    ensures
        purged_header(h).state == 3,
        purged_header(h).history_prev == 0,
        purged_header(h).history_next == 0,
        purged_header(h).txn_id == h.txn_id,
        purged_header(h).begin_lsn == h.begin_lsn,
        purged_header(h).commit_lsn == h.commit_lsn,
        purged_header(h).first_page_id == h.first_page_id,
        purged_header(h).last_page_id == h.last_page_id,
        purged_header(h).record_count == h.record_count,
{
}

proof fn lemma_freed_keeps_ids(m: Map<u64, Seq<u8>>, meta: MetaFields, pid: u64, n: nat)
    ensures
        freed(m, meta, pid, n) matches Cleaned::Done(x) ==> {
            &&& x.undo_history_head == meta.undo_history_head
            &&& x.undo_history_tail == meta.undo_history_tail
            &&& x.root_page_id == meta.root_page_id
            &&& x.next_bptree_page_id == meta.next_bptree_page_id
            &&& x.next_data_page_id == meta.next_data_page_id
            &&& x.next_undo_page_id == meta.next_undo_page_id
        },
    decreases n,
{
    if pid != 0 && n > 0 && m.contains_key(pid) && is_undo(m[pid]) {
        lemma_freed_keeps_ids(
            m,
            with_free_undo(meta, pid),
            u64_at(m[pid], 8) as u64,
            (n - 1) as nat,
        );
    }
}

/// Purging goes through the history from its first segment on, and stops at the first
/// segment that is not to be purged: that one is then the first, and has none before it.
/// The history still ends where it did, unless nothing is left of it; and no page id is
/// given out or forgotten.
///
/// `hs` are the segments that are purged, one behind another, and the one behind them.
pub proof fn law_purge_stops_at_first_needed(
    m: Map<u64, Seq<u8>>,
    meta: MetaFields,
    dirty: Map<u64, Seq<u8>>,
    gc_lsn: u64,
    n: nat,
    hs: Seq<u64>,
)
    requires
        0 < hs.len() <= n,
        hs[0] == meta.undo_history_head,
        forall|i: int|
            0 <= i < hs.len() - 1 ==> #[trigger] hs[i] != 0 && m.contains_key(hs[i]) && is_segment(
                m[hs[i]],
            ) && m[hs[i]][40] == 1 && u64_at(m[hs[i]], 32) <= gc_lsn && hs[i + 1] == u64_at(
                m[hs[i]],
                80,
            ),
        hs.last() == 0 || m.contains_key(hs.last()) && is_segment(m[hs.last()]) && (m[hs.last()][40]
            != 1 || u64_at(m[hs.last()], 32) > gc_lsn),
        purged(m, meta, dirty, gc_lsn, n) is Done,
    ensures
        ({
            let (meta2, dirty2) = purged(m, meta, dirty, gc_lsn, n)->Done_0;
            &&& meta2.undo_history_head == hs.last()
            &&& hs.last() != 0 ==> meta2.undo_history_tail == meta.undo_history_tail
            &&& hs.last() == 0 && hs.len() > 1 ==> meta2.undo_history_tail == 0
            &&& hs.last() != 0 && hs.len() > 1 ==> dirty2.contains_key(hs.last())
                && segment_header_of(dirty2[hs.last()]) == (UndoSegmentHeader {
                history_prev: 0,
                ..segment_header_of(m[hs.last()])
            })
            &&& hs.len() == 1 ==> meta2 == meta && dirty2 == dirty
            &&& meta2.root_page_id == meta.root_page_id
            &&& meta2.next_bptree_page_id == meta.next_bptree_page_id
            &&& meta2.next_data_page_id == meta.next_data_page_id
            &&& meta2.next_undo_page_id == meta.next_undo_page_id
        }),
{
    lemma_purge_stops(m, meta, dirty, gc_lsn, n, hs);
}

proof fn lemma_purge_stops(
    m: Map<u64, Seq<u8>>,
    meta: MetaFields,
    dirty: Map<u64, Seq<u8>>,
    gc_lsn: u64,
    n: nat,
    hs: Seq<u64>,
)
    requires
        0 < hs.len() <= n,
        hs[0] == meta.undo_history_head,
        forall|i: int|
            0 <= i < hs.len() - 1 ==> #[trigger] hs[i] != 0 && m.contains_key(hs[i]) && is_segment(
                m[hs[i]],
            ) && m[hs[i]][40] == 1 && u64_at(m[hs[i]], 32) <= gc_lsn && hs[i + 1] == u64_at(
                m[hs[i]],
                80,
            ),
        hs.last() == 0 || m.contains_key(hs.last()) && is_segment(m[hs.last()]) && (m[hs.last()][40]
            != 1 || u64_at(m[hs.last()], 32) > gc_lsn),
        purged(m, meta, dirty, gc_lsn, n) is Done,
    ensures
        ({
            let (meta2, dirty2) = purged(m, meta, dirty, gc_lsn, n)->Done_0;
            let last = UndoSegmentHeader { history_prev: 0, ..segment_header_of(m[hs.last()]) };
            &&& meta2.undo_history_head == hs.last()
            &&& hs.last() != 0 ==> meta2.undo_history_tail == meta.undo_history_tail
            &&& hs.last() == 0 && hs.len() > 1 ==> meta2.undo_history_tail == 0
            &&& hs.last() != 0 && hs.len() > 1 ==> dirty2.contains_key(hs.last())
                && segment_header_of(dirty2[hs.last()]) == last
            &&& hs.last() != 0 && dirty.contains_key(hs.last()) && segment_header_of(
                dirty[hs.last()],
            ) == last ==> dirty2.contains_key(hs.last()) && segment_header_of(dirty2[hs.last()])
                == last
            &&& hs.len() == 1 ==> meta2 == meta && dirty2 == dirty
            &&& meta2.root_page_id == meta.root_page_id
            &&& meta2.next_bptree_page_id == meta.next_bptree_page_id
            &&& meta2.next_data_page_id == meta.next_data_page_id
            &&& meta2.next_undo_page_id == meta.next_undo_page_id
        }),
    decreases n,
{
    let head = hs[0];
    if hs.len() > 1 {
        assert(hs[0] != 0);
        let h = segment_header_of(m[head]);
        let next = h.history_next;
        assert(next == hs[1]);
        let meta1 = if next == 0 {
            MetaFields { undo_history_head: 0, undo_history_tail: 0, ..meta }
        } else {
            MetaFields { undo_history_head: next, ..meta }
        };
        let fixed = UndoSegmentHeader { history_prev: 0, ..segment_header_of(m[next]) };
        let dirty1 = if next == 0 {
            dirty
        } else {
            dirty.insert(next, with_segment_header(m[next], fixed))
        };
        if next != 0 {
            crate::undo_pg::law_segment_header_round_trip(m[next], fixed);
        }
        let k = choose|k: nat| #[trigger] pages_end(m, h.first_page_id, k);
        lemma_freed_keeps_ids(m, meta1, h.first_page_id, k);
        let meta2 = all_freed(m, meta1, h.first_page_id)->Done_0;
        let dirty2 = dirty1.insert(head, with_segment_header(m[head], purged_header(h)));
        let more = hs.drop_first();
        assert(more.last() == hs.last());
        assert forall|i: int| 0 <= i < more.len() - 1 implies #[trigger] more[i] != 0
            && m.contains_key(more[i]) && is_segment(m[more[i]]) && m[more[i]][40] == 1 && u64_at(
            m[more[i]],
            32,
        ) <= gc_lsn && more[i + 1] == u64_at(m[more[i]], 80) by {
            assert(more[i] == hs[i + 1]);
            assert(hs[i + 1] != 0);
        }
        lemma_purge_stops(m, meta2, dirty2, gc_lsn, (n - 1) as nat, more);
    }
}

} // verus!
