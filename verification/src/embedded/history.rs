//! What writing and committing leave of older versions: the undo records that were
//! put down before read as before, so that every snapshot keeps its versions.
use vstd::prelude::*;

use super::commit::{all_stamped, committed_header, first_of, law_commit_visibility, lemma_put_all,
    linked, owned, pages_from, plan_pages, staged_in, tail_cached, with_tree, CommitPlan};
use super::inprocess::put_all;
use super::page_map::lists_pages;
use super::resolve::{base_ends, base_finite, law_abort_restores_committed_row, resolvable,
    row_after, row_in};
use super::txn::{intent_row, law_same_row_same_version, version_at, written, EmbeddedCompute,
    EmbeddedTxn, RowAt, UndoStep};
use super::undo::{based, law_undo_record_is_found, law_undo_records_stay, next_undo_page, UndoPlan};
use super::visibility::{is_intent, law_overwritten_version_is_found,
    law_same_records_same_version, reads_alike, row_seen, same_record, stops_at, undo_at, undo_here,
    walk_kept, Visibility, FLAG_INTENT, FLAG_TOMBSTONE};
use super::write::{row_written, undo_kept};
use crate::meta_page::{is_meta_page, meta_of, MetaFields, META_PAGE_ID};
use crate::page_bptree::chain::MAX_SCAN_LEAF_HOPS;
use crate::page_bptree::node_page::{stored_undo_ptr, LeafRow};
use crate::txn_page_provider::page_views;
use crate::undo_pg::{fields_at, has_record, is_segment, law_header_keeps_records, record_offset,
    segment_header_of, slot_readable, stored, undo_wf, with_segment_header, UndoPtr, UndoRecord,
    UndoSegmentHeader};

verus! {

/// Every record that is on a well-formed page of `m`, none of `taken`, is in `m2` too.
pub open spec fn keeps_records(
    m: Map<u64, Seq<u8>>,
    m2: Map<u64, Seq<u8>>,
    taken: Set<u64>,
) -> bool {
    forall|u: UndoPtr| #[trigger]
        undo_here(m, u) && undo_wf(m[u.page_id]) && !taken.contains(u.page_id) ==> undo_here(m2, u)
            && undo_wf(m2[u.page_id]) && undo_at(m2, u) == undo_at(m, u)
}

/// Following the records from `p` ends after at most `n` of them, and each is there, on
/// a well-formed page that is none of `taken`.
pub open spec fn walk_sound(
    m: Map<u64, Seq<u8>>,
    p: Option<UndoPtr>,
    read_lsn: u64,
    taken: Set<u64>,
    n: nat,
) -> bool
    decreases n,
{
    match p {
        None => true,
        Some(u) => {
            &&& n > 0
            &&& undo_here(m, u)
            &&& undo_wf(m[u.page_id])
            &&& !taken.contains(u.page_id)
            &&& !stops_at(undo_at(m, u), read_lsn) ==> walk_sound(
                m,
                undo_at(m, u).prev,
                read_lsn,
                taken,
                (n - 1) as nat,
            )
        },
    }
}

/// All undo records that the snapshot `read_lsn` follows from `p` on are there.
pub open spec fn all_sound(
    m: Map<u64, Seq<u8>>,
    p: Option<UndoPtr>,
    read_lsn: u64,
    taken: Set<u64>,
) -> bool {
    exists|n: nat| #[trigger] walk_sound(m, p, read_lsn, taken, n)
}

/// All undo records that reading a row takes are there.
pub open spec fn row_sound(
    t: EmbeddedTxn,
    c: EmbeddedCompute,
    key: Seq<u8>,
    taken: Set<u64>,
) -> bool {
    c.row(key) matches Some(row) ==> (row_seen(
        row.meta,
        t.undo_txn_id,
        t.read_lsn,
    ) matches Visibility::Undo(p) ==> all_sound(t.readable(&c), p, t.read_lsn, taken))
}

/// A record on a well-formed page can be read.
pub(crate) proof fn lemma_wf_readable(s: Seq<u8>, i: int)
    requires
        undo_wf(s),
        0 <= i,
        has_record(s, i),
    ensures
        slot_readable(s, i),
{
}

proof fn lemma_walk_sound(
    m: Map<u64, Seq<u8>>,
    m2: Map<u64, Seq<u8>>,
    p: Option<UndoPtr>,
    read_lsn: u64,
    taken: Set<u64>,
    n: nat,
)
    requires
        walk_sound(m, p, read_lsn, taken, n),
        keeps_records(m, m2, taken),
    ensures
        walk_kept(m, m2, p, read_lsn, n),
        walk_sound(m2, p, read_lsn, taken, n),
    decreases n,
{
    match p {
        None => {},
        Some(u) => {
            lemma_wf_readable(m[u.page_id], u.slot_id as int);
            lemma_wf_readable(m2[u.page_id], u.slot_id as int);
            assert(same_record(m, m2, u));
            if !stops_at(undo_at(m, u), read_lsn) {
                lemma_walk_sound(m, m2, undo_at(m, u).prev, read_lsn, taken, (n - 1) as nat);
            }
        },
    }
}

/// Where all records stay, every snapshot follows the same ones and finds the same
/// version.
pub proof fn law_kept_records_read_alike(
    m: Map<u64, Seq<u8>>,
    m2: Map<u64, Seq<u8>>,
    p: Option<UndoPtr>,
    read_lsn: u64,
    taken: Set<u64>,
)
    requires
        all_sound(m, p, read_lsn, taken),
        keeps_records(m, m2, taken),
    ensures
        reads_alike(m, m2, p, read_lsn),
        all_sound(m2, p, read_lsn, taken),
{
    let n = choose|n: nat| #[trigger] walk_sound(m, p, read_lsn, taken, n);
    lemma_walk_sound(m, m2, p, read_lsn, taken, n);
}

/// The pages that putting down an undo record may give another content: the meta page
/// and the next free undo page.
pub open spec fn undo_taken(t: EmbeddedTxn, c: EmbeddedCompute) -> Set<u64> {
    set![META_PAGE_ID, next_undo_page(based(meta_of(t.undo_meta(&c)->0)))]
}

/// The undo record `rec` was put down as `plan` says, on sound pages: the cache holds
/// the transaction's last undo page as the transaction has it, and it is well formed.
pub open spec fn undo_put(
    t0: EmbeddedTxn,
    c0: EmbeddedCompute,
    t1: EmbeddedTxn,
    c1: EmbeddedCompute,
    rec: UndoRecord,
    plan: UndoPlan,
) -> bool {
    &&& undo_kept(t0, c0, t1, c1, plan)
    &&& t0.undo_step(&c0, rec@) == UndoStep::Placed(plan)
    &&& t0.undo.last_page_id matches Some(cur) ==> {
        &&& c0.pages().contains_key(cur)
        &&& undo_wf(c0.pages()[cur])
        &&& t0.own_page(&c0, cur) == Some(c0.pages()[cur])
    }
    &&& plan.ptr.page_id != META_PAGE_ID
}

/// Putting down an undo record keeps all earlier ones, for whoever reads them: the
/// pages on which they are get another record, a link, or stay as they are.
pub proof fn law_undo_write_keeps_records(
    t0: EmbeddedTxn,
    c0: EmbeddedCompute,
    t1: EmbeddedTxn,
    c1: EmbeddedCompute,
    rec: UndoRecord,
    plan: UndoPlan,
    reader: EmbeddedTxn,
)
    requires
        undo_put(t0, c0, t1, c1, rec, plan),
    ensures
        keeps_records(reader.readable(&c0), reader.readable(&c1), undo_taken(t0, c0)),
        keeps_records(c0.pages(), c1.pages(), undo_taken(t0, c0)),
{
    let meta = based(meta_of(t0.undo_meta(&c0)->0));
    let m = reader.readable(&c0);
    let m2 = reader.readable(&c1);
    let taken = undo_taken(t0, c0);
    assert forall|u: UndoPtr| #[trigger]
        undo_here(c0.pages(), u) && undo_wf(c0.pages()[u.page_id]) && !taken.contains(
            u.page_id,
        ) implies undo_here(c1.pages(), u) && undo_wf(c1.pages()[u.page_id]) && undo_at(
        c1.pages(),
        u,
    ) == undo_at(c0.pages(), u) by {
        law_undo_records_stay(c0.pages(), t0.undo, meta, t0.undo_txn_id->0, rec, u);
    }
    assert forall|u: UndoPtr| #[trigger]
        undo_here(m, u) && undo_wf(m[u.page_id]) && !taken.contains(u.page_id) implies undo_here(
        m2,
        u,
    ) && undo_wf(m2[u.page_id]) && undo_at(m2, u) == undo_at(m, u) by {
        let x = u.page_id;
        if !page_views(reader.dirty@).contains_key(x) && !page_views(
            reader.ro_cache@,
        ).contains_key(x) {
            assert(m[x] == c0.pages()[x]);
            assert(undo_here(c0.pages(), u));
            assert(m2[x] == c1.pages()[x]);
        } else {
            assert(m2[x] == m[x]);
        }
    }
}

/// The undo record that was put down is found in the cache.
pub proof fn law_undo_write_is_found(
    t0: EmbeddedTxn,
    c0: EmbeddedCompute,
    t1: EmbeddedTxn,
    c1: EmbeddedCompute,
    rec: UndoRecord,
    plan: UndoPlan,
)
    requires
        undo_put(t0, c0, t1, c1, rec, plan),
    ensures
        undo_here(c1.pages(), plan.ptr),
        undo_wf(c1.pages()[plan.ptr.page_id]),
        undo_at(c1.pages(), plan.ptr) == stored(rec@),
{
    let meta = based(meta_of(t0.undo_meta(&c0)->0));
    let current = match t0.undo.last_page_id {
        Some(cur) => Some(c0.pages()[cur]),
        None => None,
    };
    law_undo_record_is_found(t0.undo, meta, current, t0.undo_txn_id->0, rec);
    reveal_with_fuel(written, 3);
}

/// A write changes no other row for any transaction: whoever reads it finds the version
/// that it found before, also where the write put down an undo record.
pub proof fn law_put_keeps_other_rows(
    t0: EmbeddedTxn,
    c0: EmbeddedCompute,
    t1: EmbeddedTxn,
    c1: EmbeddedCompute,
    key: Seq<u8>,
    row: LeafRow,
    rec: UndoRecord,
    plan: UndoPlan,
    reader: EmbeddedTxn,
    other: Seq<u8>,
)
    requires
        row_written(t0, c0, t1, c1, key, row),
        undo_put(t0, c0, t1, c1, rec, plan),
        c0.tree.depth() < MAX_SCAN_LEAF_HOPS,
        c1.tree.depth() < MAX_SCAN_LEAF_HOPS,
        row_sound(reader, c0, other, undo_taken(t0, c0)),
        other != key,
    ensures
        version_at(reader, c1, other) == version_at(reader, c0, other),
        reader.row_readable(&c1, other),
        row_sound(reader, c1, other, undo_taken(t0, c0)),
{
    law_undo_write_keeps_records(t0, c0, t1, c1, rec, plan, reader);
    assert(c1.tree.rows().contains_key(other) == c0.tree.rows().contains_key(other));
    match c0.row(other) {
        None => {},
        Some(row) => match row_seen(row.meta, reader.undo_txn_id, reader.read_lsn) {
            Visibility::Undo(p) => {
                law_kept_records_read_alike(
                    reader.readable(&c0),
                    reader.readable(&c1),
                    p,
                    reader.read_lsn,
                    undo_taken(t0, c0),
                );
            },
            _ => {},
        },
    }
    law_same_row_same_version(reader, c0, c1, other);
}

/// A write that overwrites a committed row leaves every other transaction able to read
/// the row, and an older snapshot reads the version that it read before. A newer one
/// waits for the writer. The reader has no earlier copy of the page that the undo record
/// is put on.
pub proof fn law_put_keeps_snapshot(
    t0: EmbeddedTxn,
    c0: EmbeddedCompute,
    t1: EmbeddedTxn,
    c1: EmbeddedCompute,
    key: Seq<u8>,
    old: LeafRow,
    value: Seq<u8>,
    flags: u16,
    rec: UndoRecord,
    plan: UndoPlan,
    reader: EmbeddedTxn,
)
    requires
        row_written(
            t0,
            c0,
            t1,
            c1,
            key,
            intent_row(value, Some(plan.ptr), flags, t0.undo_txn_id->0, t0.intent_base_lsn),
        ),
        flags == FLAG_INTENT || flags == FLAG_TOMBSTONE | FLAG_INTENT,
        undo_put(t0, c0, t1, c1, rec, plan),
        rec@ == t0.undo_fields(old),
        stored_undo_ptr(old.meta.undo_ptr) == old.meta.undo_ptr,
        c0.row(key) == Some(old),
        !is_intent(old.meta.flags),
        c1.tree.depth() < MAX_SCAN_LEAF_HOPS,
        row_sound(reader, c0, key, undo_taken(t0, c0)),
        reader.undo_txn_id is None || reader.undo_txn_id != t0.undo_txn_id,
        t0.undo_txn_id is Some,
        !page_views(reader.dirty@).contains_key(plan.ptr.page_id),
        !page_views(reader.ro_cache@).contains_key(plan.ptr.page_id),
    ensures
        reader.row_readable(&c1, key),
        version_at(reader, c1, key) == (if reader.read_lsn < t0.intent_base_lsn {
            version_at(reader, c0, key)
        } else {
            RowAt::Wait(t0.undo_txn_id->0)
        }),
{
    let m = reader.readable(&c0);
    let m2 = reader.readable(&c1);
    let lsn = reader.read_lsn;
    let u = plan.ptr;
    assert((1u16 | 2u16) & 2u16 != 0 && 2u16 & 2u16 != 0) by (bit_vector);
    law_undo_write_keeps_records(t0, c0, t1, c1, rec, plan, reader);
    law_undo_write_is_found(t0, c0, t1, c1, rec, plan);
    assert(m2[u.page_id] == c1.pages()[u.page_id]);
    assert(undo_here(m2, u));
    lemma_wf_readable(m2[u.page_id], u.slot_id as int);
    if old.meta.commit_lsn > lsn {
        law_kept_records_read_alike(m, m2, old.meta.undo_ptr, lsn, undo_taken(t0, c0));
        law_same_records_same_version(m, m2, old.meta.undo_ptr, lsn);
    }
    law_overwritten_version_is_found(m2, u, old.meta, old.value, lsn);
    assert(c1.tree.rows().contains_key(key));
}

/// An intent whose undo record keeps a committed version can be taken back.
proof fn lemma_base_found(m: Map<u64, Seq<u8>>, u: UndoPtr)
    requires
        undo_here(m, u),
        undo_wf(m[u.page_id]),
        !is_intent(undo_at(m, u).old_flags as u16),
    ensures
        base_finite(m, Some(u)),
{
    lemma_wf_readable(m[u.page_id], u.slot_id as int);
    assert(base_ends(m, Some(u), 1));
}

/// A row that a transaction wrote can be taken back: its undo record is there and keeps
/// a committed version.
pub proof fn law_written_row_is_resolvable(
    t0: EmbeddedTxn,
    c0: EmbeddedCompute,
    t1: EmbeddedTxn,
    c1: EmbeddedCompute,
    old: LeafRow,
    intent: LeafRow,
    rec: UndoRecord,
    plan: UndoPlan,
)
    requires
        undo_put(t0, c0, t1, c1, rec, plan),
        rec@ == t0.undo_fields(old),
        !is_intent(old.meta.flags),
        intent.meta.undo_ptr == Some(plan.ptr),
    ensures
        resolvable(c1.pages(), Some(intent)),
{
    law_undo_write_is_found(t0, c0, t1, c1, rec, plan);
    lemma_base_found(c1.pages(), plan.ptr);
}

/// A row that can be taken back because its undo record keeps a committed version stays
/// so when another undo record is put down.
pub proof fn law_undo_write_keeps_resolvable(
    t0: EmbeddedTxn,
    c0: EmbeddedCompute,
    t1: EmbeddedTxn,
    c1: EmbeddedCompute,
    row: LeafRow,
    rec: UndoRecord,
    plan: UndoPlan,
)
    requires
        undo_put(t0, c0, t1, c1, rec, plan),
        row.meta.undo_ptr matches Some(u) ==> {
            &&& undo_here(c0.pages(), u)
            &&& undo_wf(c0.pages()[u.page_id])
            &&& !is_intent(undo_at(c0.pages(), u).old_flags as u16)
            &&& !undo_taken(t0, c0).contains(u.page_id)
        },
    ensures
        resolvable(c1.pages(), Some(row)),
{
    match row.meta.undo_ptr {
        None => {
            assert(base_ends(c1.pages(), None, 0));
        },
        Some(u) => {
            law_undo_write_keeps_records(t0, c0, t1, c1, rec, plan, t0);
            lemma_base_found(c1.pages(), u);
        },
    }
}

/// Taking back a write that overwrote a committed row gives back that row, with its
/// undo records.
pub proof fn law_abort_takes_back_overwrite(
    t0: EmbeddedTxn,
    c0: EmbeddedCompute,
    t1: EmbeddedTxn,
    c1: EmbeddedCompute,
    key: Seq<u8>,
    old: LeafRow,
    value: Seq<u8>,
    flags: u16,
    rec: UndoRecord,
    plan: UndoPlan,
)
    requires
        row_written(
            t0,
            c0,
            t1,
            c1,
            key,
            intent_row(value, Some(plan.ptr), flags, t0.undo_txn_id->0, t0.intent_base_lsn),
        ),
        flags == FLAG_INTENT || flags == FLAG_TOMBSTONE | FLAG_INTENT,
        undo_put(t0, c0, t1, c1, rec, plan),
        rec@ == t0.undo_fields(old),
        !is_intent(old.meta.flags),
        old.meta.commit_lsn > 0,
        old.meta.intent_txn_id == 0,
        old.meta.intent_lsn == 0,
        stored_undo_ptr(old.meta.undo_ptr) == old.meta.undo_ptr,
    ensures
        row_after(c1.tree.rows(), c1.pages(), key, t0.undo_txn_id->0) == Some(old),
{
    let intent = intent_row(value, Some(plan.ptr), flags, t0.undo_txn_id->0, t0.intent_base_lsn);
    assert((1u16 | 2u16) & 2u16 != 0 && 2u16 & 2u16 != 0) by (bit_vector);
    law_undo_write_is_found(t0, c0, t1, c1, rec, plan);
    lemma_wf_readable(c1.pages()[plan.ptr.page_id], plan.ptr.slot_id as int);
    law_abort_restores_committed_row(c1.pages(), old, intent, plan.ptr, t0.undo_txn_id->0);
    assert(c1.tree.rows().contains_key(key));
}

/// Taking back a write that put in a new row leaves no row.
pub proof fn law_abort_takes_back_new_row(
    t0: EmbeddedTxn,
    c0: EmbeddedCompute,
    t1: EmbeddedTxn,
    c1: EmbeddedCompute,
    key: Seq<u8>,
    value: Seq<u8>,
)
    requires
        row_written(
            t0,
            c0,
            t1,
            c1,
            key,
            intent_row(value, None, FLAG_INTENT, t0.undo_txn_id->0, t0.intent_base_lsn),
        ),
    ensures
        row_after(c1.tree.rows(), c1.pages(), key, t0.undo_txn_id->0) is None,
        resolvable(c1.pages(), row_in(c1.tree.rows(), key)),
{
    assert(2u16 & 2u16 != 0) by (bit_vector);
    assert(base_ends(c1.pages(), None, 0));
    assert(c1.tree.rows().contains_key(key));
}

/// The pages that a commit gives another content than undo records: the meta page and
/// the tree pages that it writes.
pub open spec fn commit_taken(t: EmbeddedTxn) -> Set<u64> {
    page_views(t.bptree_dirty@).dom().insert(META_PAGE_ID)
}

/// The records of a page are those of another.
pub(crate) open spec fn same_records(a: Seq<u8>, b: Seq<u8>) -> bool {
    undo_wf(a) ==> undo_wf(b) && forall|i: int|
        0 <= i && has_record(a, i) ==> #[trigger] has_record(b, i) && fields_at(
            b,
            record_offset(b, i),
        ) == fields_at(a, record_offset(a, i))
}

pub(crate) proof fn lemma_header_same_records(s: Seq<u8>, h: UndoSegmentHeader)
    requires
        is_segment(s),
    ensures
        same_records(s, with_segment_header(s, h)),
{
    if undo_wf(s) {
        law_header_keeps_records(s, h);
        let t = with_segment_header(s, h);
        assert forall|i: int| 0 <= i && has_record(s, i) implies #[trigger] has_record(t, i)
            && fields_at(t, record_offset(t, i)) == fields_at(
            s,
            record_offset(s, i),
        ) by {
            assert(record_offset(t, i) == record_offset(s, i));
        }
    }
}

/// Storing the pages of a commit keeps all undo records, for whoever reads them: their
/// pages are as the transaction staged them, but for the headers that link its segment
/// into the history.
pub proof fn law_commit_keeps_records(
    t: EmbeddedTxn,
    c: EmbeddedCompute,
    plan: CommitPlan,
    meta: MetaFields,
    after: EmbeddedCompute,
    reader: EmbeddedTxn,
)
    requires
        plan_pages(plan, t, c, meta),
        after.pages() == put_all(c.pages(), plan.pages@, plan.pages@.len() as int),
        forall|x: u64| #[trigger]
            page_views(t.dirty@).contains_key(x) && c.pages().contains_key(x) && !commit_taken(
                t,
            ).contains(x) ==> c.pages()[x] == page_views(t.dirty@)[x],
    ensures
        keeps_records(c.pages(), after.pages(), commit_taken(t)),
        keeps_records(reader.readable(&c), reader.readable(&after), commit_taken(t)),
{
    let taken = commit_taken(t);
    let ro = page_views(t.ro_cache@);
    let m = choose|m: Map<u64, Seq<u8>>| #[trigger]
        pages_from(m, plan, t, c, meta) && staged_in(m, &t, &c);
    let (m2, meta2, mb) = choose|m2: Map<u64, Seq<u8>>, meta2: MetaFields, mb: Seq<u8>|
        linked(
            m,
            c.pages(),
            ro,
            t.undo,
            with_tree(meta, &c),
            plan.request_id,
            plan.start_lsn,
            plan.end_lsn,
        ) == Some((m2, meta2)) && #[trigger] is_meta_page(mb, meta2) && #[trigger] lists_pages(
            plan.pages@,
            m2.insert(META_PAGE_ID, mb),
        );
    let all = m2.insert(META_PAGE_ID, mb);
    let n = plan.pages@.len() as int;
    assert forall|u: UndoPtr| #[trigger]
        undo_here(c.pages(), u) && undo_wf(c.pages()[u.page_id]) && !taken.contains(
            u.page_id,
        ) implies undo_here(after.pages(), u) && undo_wf(after.pages()[u.page_id]) && undo_at(
        after.pages(),
        u,
    ) == undo_at(c.pages(), u) by {
        let x = u.page_id;
        let s = c.pages()[x];
        let i = u.slot_id as int;
        lemma_put_all(c.pages(), plan.pages@, n, all, x);
        assert(m.contains_key(x) ==> m[x] == s) by {
            assert(!page_views(t.bptree_dirty@).dom().contains(x));
            assert(t.dirty@.dom() =~= page_views(t.dirty@).dom());
            if m.contains_key(x) {
                assert(m.dom().contains(x));
                if page_views(t.dirty@).contains_key(x) {
                    assert(m[x] == page_views(t.dirty@)[x]);
                } else {
                    assert(t.undo.first_page_id == Some(x));
                }
            }
        }
        assert(same_records(s, s));
        if m2.contains_key(x) {
            lemma_linked_page(m, c.pages(), ro, t, with_tree(meta, &c), plan, x);
            assert(same_records(s, m2[x]));
            assert(has_record(m2[x], i));
        }
        if exists|j: int| 0 <= j < n && (#[trigger] plan.pages@[j]).0 == x {
            let j = choose|j: int| 0 <= j < n && (#[trigger] plan.pages@[j]).0 == x;
            assert(all.contains_key(plan.pages@[j].0));
        }
    }
    let r0 = reader.readable(&c);
    let r1 = reader.readable(&after);
    assert forall|u: UndoPtr| #[trigger]
        undo_here(r0, u) && undo_wf(r0[u.page_id]) && !taken.contains(u.page_id) implies undo_here(
        r1,
        u,
    ) && undo_wf(r1[u.page_id]) && undo_at(r1, u) == undo_at(r0, u) by {
        let x = u.page_id;
        if !page_views(reader.dirty@).contains_key(x) && !page_views(
            reader.ro_cache@,
        ).contains_key(x) {
            assert(r0[x] == c.pages()[x]);
            assert(undo_here(c.pages(), u));
            assert(r1[x] == after.pages()[x]);
        } else {
            assert(r1[x] == r0[x]);
        }
    }
}

/// A page that was linked, or left alone, has the records that it had.
proof fn lemma_linked_page(
    m: Map<u64, Seq<u8>>,
    cache: Map<u64, Seq<u8>>,
    ro: Map<u64, Seq<u8>>,
    t: EmbeddedTxn,
    meta: MetaFields,
    plan: CommitPlan,
    x: u64,
)
    requires
        cache.contains_key(x),
        m.contains_key(x) ==> m[x] == cache[x],
        linked(
            m,
            cache,
            ro,
            t.undo,
            meta,
            plan.request_id,
            plan.start_lsn,
            plan.end_lsn,
        ) is Some,
    ensures
        ({
            let (m2, _) = linked(
                m,
                cache,
                ro,
                t.undo,
                meta,
                plan.request_id,
                plan.start_lsn,
                plan.end_lsn,
            )->0;
            m2.contains_key(x) ==> same_records(cache[x], m2[x])
        }),
{
    let s = cache[x];
    assert(same_records(s, s));
    match t.undo.first_page_id {
        None => {},
        Some(first) => {
            let head = first_of(m, cache, Map::empty(), first)->0;
            let tail_id = meta.undo_history_tail;
            let hdr = committed_header(
                t.undo,
                plan.request_id,
                plan.start_lsn,
                plan.end_lsn,
                tail_id,
            );
            let h1 = with_segment_header(head, hdr);
            let m1 = m.insert(first, h1);
            lemma_header_same_records(head, hdr);
            if first == x {
                assert(head == s);
            }
            if tail_id != 0 {
                let tail = first_of(m1, cache, ro, tail_id)->0;
                let th = UndoSegmentHeader {
                    history_next: first,
                    ..segment_header_of(tail)
                };
                lemma_header_same_records(tail, th);
                if tail_id == x {
                    let t2 = with_segment_header(tail, th);
                    if tail_id == first {
                        assert(tail == h1);
                        assert forall|i: int| 0 <= i && has_record(s, i) && undo_wf(
                            s,
                        ) implies #[trigger] has_record(t2, i) && fields_at(
                            t2,
                            record_offset(t2, i),
                        ) == fields_at(s, record_offset(s, i)) by {
                            assert(has_record(h1, i));
                        }
                    } else {
                        assert(tail == s);
                    }
                }
            }
        },
    }
}

/// A commit leaves every other transaction able to read all rows, and an older snapshot
/// reads the versions that it read before: of rows that the commit shows to newer ones,
/// too.
///
/// The rows of `before` are stamped in `c`, which is what preparing the commit leaves;
/// in `after` its pages are cached. The cache holds the undo pages as the transaction
/// staged them.
pub proof fn law_commit_keeps_snapshots(
    t0: EmbeddedTxn,
    before: EmbeddedCompute,
    t: EmbeddedTxn,
    c: EmbeddedCompute,
    plan: CommitPlan,
    meta: MetaFields,
    after: EmbeddedCompute,
    reader: EmbeddedTxn,
    key: Seq<u8>,
)
    requires
        c.pages() == tail_cached(&t0, &before),
        plan_pages(plan, t, c, meta),
        after.tree == c.tree,
        after.pages() == put_all(c.pages(), plan.pages@, plan.pages@.len() as int),
        all_stamped(before.tree.rows(), c.tree.rows(), t0.modified@, plan.end_lsn, true),
        before.tree.depth() < MAX_SCAN_LEAF_HOPS,
        after.tree.depth() < MAX_SCAN_LEAF_HOPS,
        forall|x: u64| #[trigger]
            page_views(t.dirty@).contains_key(x) && c.pages().contains_key(x) && !commit_taken(
                t,
            ).contains(x) ==> c.pages()[x] == page_views(t.dirty@)[x],
        t0.undo_txn_id is Some,
        t0.modified@.contains(key) ==> owned(before.tree.rows(), key, t0.undo_txn_id->0)
            && stored_undo_ptr(before.tree.rows()[key].meta.undo_ptr)
            == before.tree.rows()[key].meta.undo_ptr,
        reader.undo_txn_id is None || reader.undo_txn_id != t0.undo_txn_id,
        reader.read_lsn < plan.end_lsn,
        !(version_at(reader, before, key) is Wait),
        row_sound(reader, before, key, commit_taken(t)),
    ensures
        reader.row_readable(&after, key),
        version_at(reader, after, key) == version_at(reader, before, key),
{
    let taken = commit_taken(t);
    let r0 = reader.readable(&before);
    let r1 = reader.readable(&c);
    let r2 = reader.readable(&after);
    law_commit_keeps_records(t, c, plan, meta, after, reader);
    assert(keeps_records(r0, r1, taken)) by {
        assert forall|u: UndoPtr| #[trigger] undo_here(r0, u) implies undo_here(r1, u) && r1[u.page_id]
            == r0[u.page_id] by {
            let x = u.page_id;
            if !page_views(reader.dirty@).contains_key(x) && !page_views(
                reader.ro_cache@,
            ).contains_key(x) {
                assert(before.pages().contains_key(x));
                assert(c.pages()[x] == before.pages()[x]);
            }
        }
    }
    assert(keeps_records(r0, r2, taken)) by {
        assert forall|u: UndoPtr| #[trigger]
            undo_here(r0, u) && undo_wf(r0[u.page_id]) && !taken.contains(
                u.page_id,
            ) implies undo_here(r2, u) && undo_wf(r2[u.page_id]) && undo_at(r2, u) == undo_at(
            r0,
            u,
        ) by {
            assert(undo_here(r1, u));
        }
    }
    assert(after.tree.rows().dom().contains(key) == before.tree.rows().dom().contains(key));
    match before.row(key) {
        None => {},
        Some(row) => {
            if t0.modified@.contains(key) {
                law_commit_visibility(row, plan.end_lsn, reader.undo_txn_id, reader.read_lsn);
            }
            match row_seen(row.meta, reader.undo_txn_id, reader.read_lsn) {
                Visibility::Undo(p) => {
                    law_kept_records_read_alike(r0, r2, p, reader.read_lsn, taken);
                    law_same_records_same_version(r0, r2, p, reader.read_lsn);
                },
                _ => {},
            }
        },
    }
}

} // verus!
