//! Which undo pages garbage collection sets free: only such as no snapshot follows.
use vstd::prelude::*;

use super::commit::all_stamped;
use super::gc::{all_freed, freed, history_ends, history_purged, pages_end, purgeable, purged,
    purged_header, Cleaned};
use super::history::{keeps_records, lemma_header_same_records, same_records};
use super::soundness::{cached_meta, chain_sound, chained, free_list_ok, law_undo_write_keeps_sound,
    lemma_chain_kept, lemma_page_taken, row_chained, segment_sound, sound, unused};
use super::txn::{EmbeddedCompute, EmbeddedTxn};
use super::undo::{based, next_undo_page, UNDO_BASE};
use super::visibility::{is_intent, undo_at, undo_here};
use super::write::{write_case, wrote_row, WriteCase};
use crate::layout::u64_at;
use crate::meta_page::{is_meta_page, law_meta_round_trip, with_free_undo, MetaFields, META_PAGE_ID,
    UNDO_FREE_CAP};
use crate::page_bptree::chain::MAX_SCAN_LEAF_HOPS;
use crate::page_bptree::node_page::LeafRow;
use crate::undo_pg::{is_segment, is_undo, segment_header_of, undo_wf, with_segment_header, UndoPtr,
    UndoRecord, UndoSegmentHeader};

verus! {

/// The pages that hang on `pid`, one behind another, at most `n`.
pub open spec fn segment_pages(m: Map<u64, Seq<u8>>, pid: u64, n: nat) -> Seq<u64>
    decreases n,
{
    if pid == 0 || n == 0 || !m.contains_key(pid) || !is_undo(m[pid]) {
        seq![]
    } else {
        seq![pid] + segment_pages(m, u64_at(m[pid], 8) as u64, (n - 1) as nat)
    }
}

/// All pages that hang on `pid`.
pub open spec fn all_segment_pages(m: Map<u64, Seq<u8>>, pid: u64) -> Seq<u64> {
    segment_pages(m, pid, choose|n: nat| #[trigger] pages_end(m, pid, n))
}

/// The pages of the segments that can be purged from `head` on, at most `n` segments.
pub open spec fn purged_pages(m: Map<u64, Seq<u8>>, head: u64, gc_lsn: u64, n: nat) -> Seq<u64>
    decreases n,
{
    if head == 0 || n == 0 || !purgeable(m, head, gc_lsn) {
        seq![]
    } else {
        let h = segment_header_of(m[head]);
        all_segment_pages(m, h.first_page_id) + purged_pages(
            m,
            h.history_next,
            gc_lsn,
            (n - 1) as nat,
        )
    }
}

/// As many of the ids as the list of free pages takes.
pub open spec fn capped(s: Seq<u64>) -> Seq<u64> {
    if s.len() <= UNDO_FREE_CAP {
        s
    } else {
        s.take(UNDO_FREE_CAP as int)
    }
}

proof fn lemma_capped(a: Seq<u64>, b: Seq<u64>, c: Seq<u64>)
    ensures
        capped(capped(a + b) + c) == capped(a + (b + c)),
{
    assert(a + (b + c) =~= (a + b) + c);
    assert(capped(capped(a + b) + c) =~= capped((a + b) + c));
}

/// What setting pages free makes of the meta page.
proof fn lemma_freed(m: Map<u64, Seq<u8>>, meta: MetaFields, pid: u64, n: nat)
    requires
        meta.undo_free.len() <= UNDO_FREE_CAP,
    ensures
        freed(m, meta, pid, n) matches Cleaned::Done(x) ==> x == (MetaFields {
            undo_free: capped(meta.undo_free + segment_pages(m, pid, n)),
            ..meta
        }),
    decreases n,
{
    if pid == 0 || n == 0 {
        assert(meta.undo_free + Seq::<u64>::empty() =~= meta.undo_free);
    } else if m.contains_key(pid) && is_undo(m[pid]) {
        let next = u64_at(m[pid], 8) as u64;
        let one = with_free_undo(meta, pid);
        lemma_freed(m, one, next, (n - 1) as nat);
        let rest = segment_pages(m, next, (n - 1) as nat);
        assert(one.undo_free =~= capped(meta.undo_free + seq![pid]));
        lemma_capped(meta.undo_free, seq![pid], rest);
    }
}

/// The pages of `d` are first pages of segments in `m` with other headers.
pub open spec fn headers_only(m: Map<u64, Seq<u8>>, d: Map<u64, Seq<u8>>) -> bool {
    forall|x: u64| #[trigger]
        d.contains_key(x) ==> m.contains_key(x) && is_segment(m[x]) && exists|h: UndoSegmentHeader|
            d[x] == #[trigger] with_segment_header(m[x], h)
}

/// What purging the history makes of the meta page and of other pages.
proof fn lemma_purged(
    m: Map<u64, Seq<u8>>,
    meta: MetaFields,
    dirty: Map<u64, Seq<u8>>,
    gc_lsn: u64,
    n: nat,
)
    requires
        meta.undo_free.len() <= UNDO_FREE_CAP,
        headers_only(m, dirty),
    ensures
        purged(m, meta, dirty, gc_lsn, n) matches Cleaned::Done((meta1, d1)) ==> {
            &&& meta1.undo_free == capped(
                meta.undo_free + purged_pages(m, meta.undo_history_head, gc_lsn, n),
            )
            &&& meta1.next_undo_page_id == meta.next_undo_page_id
            &&& headers_only(m, d1)
        },
    decreases n,
{
    let head = meta.undo_history_head;
    if head == 0 || n == 0 || !purgeable(m, head, gc_lsn) {
        assert(meta.undo_free + Seq::<u64>::empty() =~= meta.undo_free);
    } else {
        let h = segment_header_of(m[head]);
        let next = h.history_next;
        let meta1 = if next == 0 {
            MetaFields { undo_history_head: 0, undo_history_tail: 0, ..meta }
        } else {
            MetaFields { undo_history_head: next, ..meta }
        };
        let nh = UndoSegmentHeader { history_prev: 0, ..segment_header_of(m[next]) };
        let dirty1 = if next == 0 {
            dirty
        } else {
            dirty.insert(next, with_segment_header(m[next], nh))
        };
        let k = choose|k: nat| #[trigger] pages_end(m, h.first_page_id, k);
        lemma_freed(m, meta1, h.first_page_id, k);
        if !(next != 0 && (!m.contains_key(next) || !is_segment(m[next]))) {
            match all_freed(m, meta1, h.first_page_id) {
                Cleaned::Done(meta2) => {
                    let d2 = dirty1.insert(head, with_segment_header(m[head], purged_header(h)));
                    assert(headers_only(m, d2));
                    lemma_purged(m, meta2, d2, gc_lsn, (n - 1) as nat);
                    let rest = purged_pages(m, next, gc_lsn, (n - 1) as nat);
                    lemma_capped(meta.undo_free, all_segment_pages(m, h.first_page_id), rest);
                },
                _ => {},
            }
        }
    }
}

/// Each record from `p` on, down to the first version that is not newer than `floor`, is
/// on a page of the segment of the transaction that overwrote it: `lsn_of` gives the
/// commit LSN of the segment of each page, and `lsn` is that of the version that `p`
/// comes with.
pub open spec fn chain_labelled(
    m: Map<u64, Seq<u8>>,
    p: Option<UndoPtr>,
    lsn: int,
    lsn_of: Map<u64, u64>,
    floor: u64,
    n: nat,
) -> bool
    decreases n,
{
    match p {
        None => true,
        Some(u) => {
            let f = undo_at(m, u);
            &&& n > 0
            &&& lsn_of.contains_key(u.page_id)
            &&& lsn_of[u.page_id] == lsn
            &&& f.old_commit_lsn > floor ==> chain_labelled(
                m,
                f.prev,
                f.old_commit_lsn,
                lsn_of,
                floor,
                (n - 1) as nat,
            )
        },
    }
}

pub open spec fn labelled(
    m: Map<u64, Seq<u8>>,
    p: Option<UndoPtr>,
    lsn: int,
    lsn_of: Map<u64, u64>,
    floor: u64,
) -> bool {
    exists|n: nat| #[trigger] chain_labelled(m, p, lsn, lsn_of, floor, n)
}

/// The undo records of a row are on pages of the segments of the transactions that
/// overwrote the versions; the record of an intent is on a page of no committed segment.
pub open spec fn row_labelled(
    m: Map<u64, Seq<u8>>,
    row: LeafRow,
    lsn_of: Map<u64, u64>,
    floor: u64,
) -> bool {
    if is_intent(row.meta.flags) {
        row.meta.undo_ptr matches Some(u) ==> {
            let f = undo_at(m, u);
            &&& !lsn_of.contains_key(u.page_id)
            &&& f.old_commit_lsn > floor ==> labelled(m, f.prev, f.old_commit_lsn, lsn_of, floor)
        }
    } else {
        row.meta.commit_lsn > floor ==> labelled(
            m,
            row.meta.undo_ptr,
            row.meta.commit_lsn as int,
            lsn_of,
            floor,
        )
    }
}

/// The pages of each segment of the history that can be purged carry its commit LSN.
pub open spec fn history_labelled(
    m: Map<u64, Seq<u8>>,
    head: u64,
    gc_lsn: u64,
    lsn_of: Map<u64, u64>,
    n: nat,
) -> bool
    decreases n,
{
    head == 0 || n == 0 || !purgeable(m, head, gc_lsn) || {
        let h = segment_header_of(m[head]);
        let pages = all_segment_pages(m, h.first_page_id);
        &&& forall|i: int|
            0 <= i < pages.len() ==> lsn_of.contains_key(#[trigger] pages[i]) && lsn_of[pages[i]]
                == h.commit_lsn
        &&& history_labelled(m, h.history_next, gc_lsn, lsn_of, (n - 1) as nat)
    }
}

proof fn lemma_purged_labels(
    m: Map<u64, Seq<u8>>,
    head: u64,
    gc_lsn: u64,
    lsn_of: Map<u64, u64>,
    n: nat,
    i: int,
)
    requires
        history_labelled(m, head, gc_lsn, lsn_of, n),
        0 <= i < purged_pages(m, head, gc_lsn, n).len(),
    ensures
        ({
            let x = purged_pages(m, head, gc_lsn, n)[i];
            lsn_of.contains_key(x) && lsn_of[x] <= gc_lsn
        }),
    decreases n,
{
    let h = segment_header_of(m[head]);
    let pages = all_segment_pages(m, h.first_page_id);
    if i < pages.len() {
        assert(purged_pages(m, head, gc_lsn, n)[i] == pages[i]);
    } else {
        lemma_purged_labels(
            m,
            h.history_next,
            gc_lsn,
            lsn_of,
            (n - 1) as nat,
            i - pages.len(),
        );
    }
}

/// A chain above `gc_lsn` has no page of a segment that is not newer than that.
proof fn lemma_chain_avoids(
    m: Map<u64, Seq<u8>>,
    p: Option<UndoPtr>,
    lsn: int,
    lsn_of: Map<u64, u64>,
    floor: u64,
    gc_lsn: u64,
    free: Set<u64>,
    free2: Set<u64>,
    n: nat,
    k: nat,
)
    requires
        chain_sound(m, p, floor, free, n),
        chain_labelled(m, p, lsn, lsn_of, floor, k),
        floor <= gc_lsn < lsn,
        forall|x: u64| #[trigger]
            free2.contains(x) ==> free.contains(x) || lsn_of.contains_key(x) && lsn_of[x] <= gc_lsn,
    ensures
        chain_sound(m, p, gc_lsn, free2, n),
    decreases n,
{
    match p {
        None => {},
        Some(u) => {
            let f = undo_at(m, u);
            if f.old_commit_lsn > gc_lsn {
                lemma_chain_avoids(
                    m,
                    f.prev,
                    f.old_commit_lsn,
                    lsn_of,
                    floor,
                    gc_lsn,
                    free,
                    free2,
                    (n - 1) as nat,
                    (k - 1) as nat,
                );
            }
        },
    }
}

/// Purging the undo history sets no page free that a snapshot from `gc_lsn` on follows:
/// once the purged pages are cached, the engine is sound down to `gc_lsn`, so that every
/// such snapshot still reads all rows.
///
/// Undo pages belong to the segments of the transactions that wrote them (`lsn_of`), no
/// page is in two segments of the history, and none of them is free.
pub proof fn law_purge_spares_snapshots(
    c0: EmbeddedCompute,
    after: EmbeddedCompute,
    meta1: MetaFields,
    d1: Map<u64, Seq<u8>>,
    mb: Seq<u8>,
    lsn_of: Map<u64, u64>,
    floor: u64,
    gc_lsn: u64,
)
    requires
        sound(&c0, floor),
        floor <= gc_lsn,
        history_purged(c0.pages(), cached_meta(&c0), gc_lsn) == Cleaned::Done((meta1, d1)),
        is_meta_page(mb, meta1),
        after.pages() == c0.pages().union_prefer_right(d1).insert(META_PAGE_ID, mb),
        after.tree == c0.tree,
        forall|k: Seq<u8>| #[trigger]
            c0.tree.rows().contains_key(k) ==> row_labelled(
                c0.pages(),
                c0.tree.rows()[k],
                lsn_of,
                floor,
            ),
        ({
            let meta = cached_meta(&c0);
            let n = choose|n: nat| #[trigger]
                history_ends(c0.pages(), meta.undo_history_head, gc_lsn, n);
            let pages = purged_pages(c0.pages(), meta.undo_history_head, gc_lsn, n);
            &&& history_labelled(c0.pages(), meta.undo_history_head, gc_lsn, lsn_of, n)
            &&& (meta.undo_free + pages).no_duplicates()
            &&& forall|i: int|
                0 <= i < pages.len() ==> UNDO_BASE <= #[trigger] pages[i] < based(
                    meta,
                ).next_undo_page_id
        }),
    ensures
        sound(&after, gc_lsn),
        keeps_records(c0.pages(), after.pages(), unused(cached_meta(&c0))),
{
    let m = c0.pages();
    let m2 = after.pages();
    let meta = cached_meta(&c0);
    let n = choose|n: nat| #[trigger] history_ends(m, meta.undo_history_head, gc_lsn, n);
    let free = unused(meta);
    lemma_purged(m, meta, Map::empty(), gc_lsn, n);
    lemma_free_after(m, meta, meta1, lsn_of, gc_lsn, n);
    assert forall|i: int| 0 <= i < meta1.undo_free.len() implies #[trigger] meta1.undo_free[i]
        != 0 by {}
    law_meta_round_trip(mb, meta1);
    assert(cached_meta(&after) == meta1);
    let free2 = unused(meta1);
    lemma_purge_keeps_records(m, m2, d1, mb, free);
    assert forall|k: Seq<u8>| #[trigger] after.tree.rows().contains_key(k) implies row_chained(
        m2,
        after.tree.rows()[k],
        gc_lsn,
        free2,
    ) by {
        let row = c0.tree.rows()[k];
        assert(c0.tree.rows().contains_key(k));
        lemma_row_spared(m, m2, row, lsn_of, floor, gc_lsn, free, free2);
    }
}

/// The list of free pages after the history was purged.
proof fn lemma_free_after(
    m: Map<u64, Seq<u8>>,
    meta: MetaFields,
    meta1: MetaFields,
    lsn_of: Map<u64, u64>,
    gc_lsn: u64,
    n: nat,
)
    requires
        free_list_ok(meta),
        meta1.undo_free == capped(
            meta.undo_free + purged_pages(m, meta.undo_history_head, gc_lsn, n),
        ),
        meta1.next_undo_page_id == meta.next_undo_page_id,
        history_labelled(m, meta.undo_history_head, gc_lsn, lsn_of, n),
        (meta.undo_free + purged_pages(m, meta.undo_history_head, gc_lsn, n)).no_duplicates(),
        ({
            let pages = purged_pages(m, meta.undo_history_head, gc_lsn, n);
            forall|i: int|
                0 <= i < pages.len() ==> UNDO_BASE <= #[trigger] pages[i] < based(
                    meta,
                ).next_undo_page_id
        }),
    ensures
        free_list_ok(meta1),
        unused(meta).subset_of(unused(meta1)),
        forall|x: u64| #[trigger]
            unused(meta1).contains(x) ==> unused(meta).contains(x) || lsn_of.contains_key(x)
                && lsn_of[x] <= gc_lsn,
{
    let pages = purged_pages(m, meta.undo_history_head, gc_lsn, n);
    let all = meta.undo_free + pages;
    let fr = meta1.undo_free;
    assert forall|i: int| 0 <= i < fr.len() implies fr[i] == all[i] by {}
    assert forall|i: int| 0 <= i < fr.len() implies UNDO_BASE <= #[trigger] fr[i] < based(
        meta1,
    ).next_undo_page_id by {
        if i < meta.undo_free.len() {
            assert(all[i] == meta.undo_free[i]);
        } else {
            assert(all[i] == pages[i - meta.undo_free.len()]);
        }
    }
    assert forall|x: u64| unused(meta).contains(x) implies unused(meta1).contains(x) by {
        if meta.undo_free.contains(x) {
            let i = meta.undo_free.index_of(x);
            assert(fr[i] == x);
        }
    }
    assert forall|x: u64| #[trigger] unused(meta1).contains(x) implies unused(meta).contains(x)
        || lsn_of.contains_key(x) && lsn_of[x] <= gc_lsn by {
        if fr.contains(x) {
            let i = fr.index_of(x);
            assert(all[i] == x);
            if i < meta.undo_free.len() {
                assert(meta.undo_free[i] == x);
                assert(meta.undo_free.contains(x));
            } else {
                lemma_purged_labels(
                    m,
                    meta.undo_history_head,
                    gc_lsn,
                    lsn_of,
                    n,
                    i - meta.undo_free.len(),
                );
            }
        }
    }
}

/// Other headers, and another meta page, leave all records.
proof fn lemma_purge_keeps_records(
    m: Map<u64, Seq<u8>>,
    m2: Map<u64, Seq<u8>>,
    d1: Map<u64, Seq<u8>>,
    mb: Seq<u8>,
    free: Set<u64>,
)
    requires
        headers_only(m, d1),
        m2 == m.union_prefer_right(d1).insert(META_PAGE_ID, mb),
        free.contains(META_PAGE_ID),
    ensures
        keeps_records(m, m2, free),
{
    assert forall|u: UndoPtr| #[trigger]
        undo_here(m, u) && undo_wf(m[u.page_id]) && !free.contains(u.page_id) implies undo_here(
        m2,
        u,
    ) && undo_wf(m2[u.page_id]) && undo_at(m2, u) == undo_at(m, u) by {
        let x = u.page_id;
        if d1.contains_key(x) {
            let h = choose|h: UndoSegmentHeader| d1[x] == #[trigger] with_segment_header(m[x], h);
            lemma_header_same_records(m[x], h);
            assert(same_records(m[x], m2[x]));
            assert(crate::undo_pg::has_record(m2[x], u.slot_id as int));
        } else {
            assert(m2[x] == m[x]);
        }
    }
}

/// A row keeps the records that snapshots from `gc_lsn` on may need of it.
proof fn lemma_row_spared(
    m: Map<u64, Seq<u8>>,
    m2: Map<u64, Seq<u8>>,
    row: LeafRow,
    lsn_of: Map<u64, u64>,
    floor: u64,
    gc_lsn: u64,
    free: Set<u64>,
    free2: Set<u64>,
)
    requires
        floor <= gc_lsn,
        row_chained(m, row, floor, free),
        row_labelled(m, row, lsn_of, floor),
        keeps_records(m, m2, free),
        free.subset_of(free2),
        forall|x: u64| #[trigger]
            free2.contains(x) ==> free.contains(x) || lsn_of.contains_key(x) && lsn_of[x] <= gc_lsn,
    ensures
        row_chained(m2, row, gc_lsn, free2),
{
    let p = row.meta.undo_ptr;
    if is_intent(row.meta.flags) {
        let a = choose|a: nat| #[trigger] chain_sound(m, p, floor, free, a);
        match p {
            None => {
                assert(chain_sound(m, p, gc_lsn, free2, 0));
            },
            Some(u) => {
                let f = undo_at(m, u);
                if f.old_commit_lsn > gc_lsn {
                    let b = choose|b: nat| #[trigger]
                        chain_labelled(m, f.prev, f.old_commit_lsn, lsn_of, floor, b);
                    lemma_chain_avoids(
                        m,
                        f.prev,
                        f.old_commit_lsn,
                        lsn_of,
                        floor,
                        gc_lsn,
                        free,
                        free2,
                        (a - 1) as nat,
                        b,
                    );
                }
                assert(chain_sound(m, p, gc_lsn, free2, a));
            },
        }
        lemma_moved(m, m2, p, gc_lsn, free, free2);
    } else if row.meta.commit_lsn > gc_lsn {
        let lsn = row.meta.commit_lsn as int;
        let a = choose|a: nat| #[trigger] chain_sound(m, p, floor, free, a);
        let b = choose|b: nat| #[trigger] chain_labelled(m, p, lsn, lsn_of, floor, b);
        lemma_chain_avoids(m, p, lsn, lsn_of, floor, gc_lsn, free, free2, a, b);
        lemma_moved(m, m2, p, gc_lsn, free, free2);
    }
}

/// Where records stay, a chain stays.
proof fn lemma_moved(
    m: Map<u64, Seq<u8>>,
    m2: Map<u64, Seq<u8>>,
    p: Option<UndoPtr>,
    floor: u64,
    free: Set<u64>,
    free2: Set<u64>,
)
    requires
        chained(m, p, floor, free2),
        keeps_records(m, m2, free),
        free.subset_of(free2),
    ensures
        chained(m2, p, floor, free2),
{
    assert(keeps_records(m, m2, free2));
    let n = choose|n: nat| #[trigger] chain_sound(m, p, floor, free2, n);
    lemma_chain_kept(m, m2, p, floor, free2, free2, n);
}

/// The undo records of all rows are on pages of the segments that `lsn_of` says, and no
/// page that is not in use is said to be of a segment.
pub open spec fn rows_labelled(c: &EmbeddedCompute, lsn_of: Map<u64, u64>, floor: u64) -> bool {
    &&& forall|k: Seq<u8>| #[trigger]
        c.tree.rows().contains_key(k) ==> row_labelled(c.pages(), c.tree.rows()[k], lsn_of, floor)
    &&& forall|x: u64| #[trigger] unused(cached_meta(c)).contains(x) ==> !lsn_of.contains_key(x)
}

/// Where records stay, they stay on their pages; and more pages may be said to be of a
/// segment.
proof fn lemma_labels_kept(
    m: Map<u64, Seq<u8>>,
    m2: Map<u64, Seq<u8>>,
    p: Option<UndoPtr>,
    lsn: int,
    lsn_of: Map<u64, u64>,
    lsn_of2: Map<u64, u64>,
    floor: u64,
    free: Set<u64>,
    n: nat,
    k: nat,
)
    requires
        chain_sound(m, p, floor, free, n),
        chain_labelled(m, p, lsn, lsn_of, floor, k),
        keeps_records(m, m2, free),
        forall|x: u64| #[trigger]
            lsn_of.contains_key(x) ==> lsn_of2.contains_key(x) && lsn_of2[x] == lsn_of[x],
    ensures
        chain_labelled(m2, p, lsn, lsn_of2, floor, k),
    decreases k,
{
    match p {
        None => {},
        Some(u) => {
            let f = undo_at(m, u);
            if f.old_commit_lsn > floor {
                lemma_labels_kept(
                    m,
                    m2,
                    f.prev,
                    f.old_commit_lsn,
                    lsn_of,
                    lsn_of2,
                    floor,
                    free,
                    (n - 1) as nat,
                    (k - 1) as nat,
                );
            }
        },
    }
}

/// The same of the records of a row.
proof fn lemma_row_labels_kept(
    m: Map<u64, Seq<u8>>,
    m2: Map<u64, Seq<u8>>,
    row: LeafRow,
    lsn_of: Map<u64, u64>,
    lsn_of2: Map<u64, u64>,
    floor: u64,
    free: Set<u64>,
)
    requires
        row_chained(m, row, floor, free),
        row_labelled(m, row, lsn_of, floor),
        keeps_records(m, m2, free),
        forall|x: u64| #[trigger]
            lsn_of.contains_key(x) ==> lsn_of2.contains_key(x) && lsn_of2[x] == lsn_of[x],
        is_intent(row.meta.flags) ==> (row.meta.undo_ptr matches Some(u) ==> !lsn_of2.contains_key(
            u.page_id,
        )),
    ensures
        row_labelled(m2, row, lsn_of2, floor),
{
    let p = row.meta.undo_ptr;
    if is_intent(row.meta.flags) {
        let a = choose|a: nat| #[trigger] chain_sound(m, p, floor, free, a);
        match p {
            None => {},
            Some(u) => {
                let f = undo_at(m, u);
                if f.old_commit_lsn > floor {
                    let lsn = f.old_commit_lsn;
                    let b = choose|b: nat| #[trigger]
                        chain_labelled(m, f.prev, lsn, lsn_of, floor, b);
                    lemma_labels_kept(
                        m,
                        m2,
                        f.prev,
                        lsn,
                        lsn_of,
                        lsn_of2,
                        floor,
                        free,
                        (a - 1) as nat,
                        b,
                    );
                }
            },
        }
    } else if row.meta.commit_lsn > floor {
        let lsn = row.meta.commit_lsn as int;
        let a = choose|a: nat| #[trigger] chain_sound(m, p, floor, free, a);
        let b = choose|b: nat| #[trigger] chain_labelled(m, p, lsn, lsn_of, floor, b);
        lemma_labels_kept(m, m2, p, lsn, lsn_of, lsn_of2, floor, free, a, b);
    }
}

/// A write keeps undo records on pages of the right segments: its own record goes on a
/// page of no committed segment.
pub proof fn law_write_keeps_labels(
    t0: EmbeddedTxn,
    c0: EmbeddedCompute,
    t1: EmbeddedTxn,
    c1: EmbeddedCompute,
    key: Seq<u8>,
    row: LeafRow,
    lsn_of: Map<u64, u64>,
    floor: u64,
)
    requires
        wrote_row(t0, c0, t1, c1, key, row),
        c0.tree.depth() < MAX_SCAN_LEAF_HOPS,
        sound(&c0, floor),
        segment_sound(&t0, &c0),
        rows_labelled(&c0, lsn_of, floor),
        t0.undo.last_page_id matches Some(cur) ==> !lsn_of.contains_key(cur),
    ensures
        rows_labelled(&c1, lsn_of, floor),
        t1.undo.last_page_id matches Some(cur) ==> !lsn_of.contains_key(cur),
{
    let free = unused(cached_meta(&c0));
    let (m, m2) = (c0.pages(), c1.pages());
    match write_case(c0.row(key), t0.undo_txn_id) {
        WriteCase::Committed(prev) => {
            let rec = choose|rec: UndoRecord| #[trigger] rec@ == t0.undo_fields(prev);
            let plan = t0.undo_step(&c0, t0.undo_fields(prev))->Placed_0;
            law_undo_write_keeps_sound(t0, c0, t1, c1, rec, plan, floor);
            let u = plan.ptr;
            assert(!lsn_of.contains_key(u.page_id)) by {
                if t0.undo.last_page_id != Some(u.page_id) {
                    assert(u.page_id == next_undo_page(based(cached_meta(&c0))));
                    lemma_page_taken(cached_meta(&c0));
                }
            }
            assert(c0.tree.rows().contains_key(key));
            assert(row_labelled(m2, row, lsn_of, floor)) by {
                let f = undo_at(m2, u);
                assert(f.prev == prev.meta.undo_ptr && f.old_commit_lsn == prev.meta.commit_lsn);
                if f.old_commit_lsn > floor {
                    lemma_row_labels_kept(m, m2, prev, lsn_of, lsn_of, floor, free);
                }
            }
        },
        WriteCase::Own(prev) => {
            assert(c0.tree.rows().contains_key(key));
            assert(row_labelled(m, prev, lsn_of, floor));
        },
        _ => {},
    }
    assert forall|k: Seq<u8>| #[trigger] c1.tree.rows().contains_key(k) implies row_labelled(
        m2,
        c1.tree.rows()[k],
        lsn_of,
        floor,
    ) by {
        if k != key {
            assert(c0.tree.rows().contains_key(k));
            lemma_row_labels_kept(m, m2, c0.tree.rows()[k], lsn_of, lsn_of, floor, free);
        }
    }
    assert forall|x: u64| #[trigger] unused(cached_meta(&c1)).contains(
        x,
    ) implies !lsn_of.contains_key(x) by {
        assert(free.contains(x));
    }
}

/// A commit keeps undo records on pages of the right segments: those that the transaction
/// put down, on the pages `own`, become pages of a segment with its commit LSN.
pub proof fn law_commit_keeps_labels(
    t0: EmbeddedTxn,
    c0: EmbeddedCompute,
    after: EmbeddedCompute,
    own: Set<u64>,
    lsn: u64,
    lsn_of: Map<u64, u64>,
    floor: u64,
)
    requires
        sound(&c0, floor),
        rows_labelled(&c0, lsn_of, floor),
        all_stamped(c0.tree.rows(), after.tree.rows(), t0.modified@, lsn, true),
        keeps_records(c0.pages(), after.pages(), unused(cached_meta(&c0))),
        unused(cached_meta(&after)) == unused(cached_meta(&c0)),
        forall|x: u64| #[trigger]
            own.contains(x) ==> !lsn_of.contains_key(x) && !unused(cached_meta(&c0)).contains(x),
        forall|k: Seq<u8>| #[trigger]
            c0.tree.rows().contains_key(k) && is_intent(c0.tree.rows()[k].meta.flags) ==> (
            c0.tree.rows()[k].meta.undo_ptr matches Some(u) ==> own.contains(u.page_id)
                == t0.modified@.contains(k)),
        forall|k: Seq<u8>| #[trigger]
            t0.modified@.contains(k) ==> c0.tree.rows().contains_key(k) && is_intent(
                c0.tree.rows()[k].meta.flags,
            ),
    ensures
        rows_labelled(
            &after,
            lsn_of.union_prefer_right(Map::new(|x: u64| own.contains(x), |x: u64| lsn)),
            floor,
        ),
{
    let lsn_of2 = lsn_of.union_prefer_right(Map::new(|x: u64| own.contains(x), |x: u64| lsn));
    let free = unused(cached_meta(&c0));
    let (m, m2) = (c0.pages(), after.pages());
    let rows = c0.tree.rows();
    assert forall|k: Seq<u8>| #[trigger] after.tree.rows().contains_key(k) implies row_labelled(
        m2,
        after.tree.rows()[k],
        lsn_of2,
        floor,
    ) by {
        assert(rows.dom().contains(k));
        let row = rows[k];
        assert(rows.contains_key(k));
        assert(row_chained(m, row, floor, free) && row_labelled(m, row, lsn_of, floor));
        if t0.modified@.contains(k) {
            let fl = row.meta.flags;
            assert((fl & !2u16) & 2u16 == 0) by (bit_vector);
            let a = choose|a: nat| #[trigger]
                chain_sound(m, row.meta.undo_ptr, floor, free, a);
            match row.meta.undo_ptr {
                None => {
                    assert(chain_labelled(m2, None, lsn as int, lsn_of2, floor, 0));
                },
                Some(u) => {
                    let f = undo_at(m, u);
                    if f.old_commit_lsn > floor {
                        let old = f.old_commit_lsn;
                        let b = choose|b: nat| #[trigger]
                            chain_labelled(m, f.prev, old, lsn_of, floor, b);
                        lemma_labels_kept(
                            m,
                            m2,
                            f.prev,
                            old,
                            lsn_of,
                            lsn_of2,
                            floor,
                            free,
                            (a - 1) as nat,
                            b,
                        );
                        assert(((b + 1) - 1) as nat == b);
                        assert(chain_labelled(
                            m2,
                            Some(u),
                            lsn as int,
                            lsn_of2,
                            floor,
                            (b + 1) as nat,
                        ));
                    } else {
                        assert(chain_labelled(m2, Some(u), lsn as int, lsn_of2, floor, 1));
                    }
                },
            }
        } else {
            lemma_row_labels_kept(m, m2, row, lsn_of, lsn_of2, floor, free);
        }
    }
}

} // verus!
