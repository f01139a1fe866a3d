//! What a transaction comes to as a whole: its writes, its commit, and what others read.
use vstd::prelude::*;

use super::commit::{all_stamped, commit_meta_of, first_lost, law_commit_visibility, plan_pages,
    staged_but_tree, stamped, tail_cached, CommitPlan};
use super::history::{keeps_records, law_kept_records_read_alike};
use super::inprocess::put_all;
use super::soundness::{cached_meta, chain_sound, chained, law_commit_keeps_sound,
    law_undo_write_keeps_sound, lemma_chain_kept, lemma_chain_walk, lemma_sound_after,
    lemma_undo_write_is_cached, row_chained, segment_sound, sound, staged_cached, unused};
use super::txn::{version_at, EmbeddedCompute, EmbeddedTxn, RowAt, UndoStep};
use super::undo::{based, UndoPlan, UNDO_BASE};
use super::visibility::{is_intent, law_overwritten_version_is_found, law_same_records_same_version,
    lemma_version_none, undo_at, undo_here, undo_version, Walk};
use super::write::{lemma_write_keeps_sound, stands_for, undo_kept, write_case, wrote_row,
    WriteCase};
use crate::page_bptree::chain::MAX_SCAN_LEAF_HOPS;
use crate::page_bptree::node_page::LeafRow;
use crate::txn_page_provider::page_views;
use crate::undo_pg::{stored, undo_wf, UndoPtr, UndoRecord};

verus! {

/// A write of a transaction: a key, and the value that was put or `None` for a delete.
pub struct Write {
    pub key: Seq<u8>,
    pub value: Option<Seq<u8>>,
}

/// The transaction went through the states `ts`, in the engine's states `cs`, by making
/// the writes one after another.
pub open spec fn writes_made(
    ts: Seq<EmbeddedTxn>,
    cs: Seq<EmbeddedCompute>,
    writes: Seq<Write>,
) -> bool {
    &&& ts.len() == writes.len() + 1
    &&& cs.len() == writes.len() + 1
    &&& forall|i: int|
        0 <= i < writes.len() ==> exists|row: LeafRow| #[trigger]
            wrote_row(ts[i], cs[i], ts[i + 1], cs[i + 1], writes[i].key, row) && stands_for(
                row,
                (#[trigger] writes[i]).value,
            )
    &&& forall|i: int| 0 <= i < cs.len() ==> (#[trigger] cs[i]).tree.depth() < MAX_SCAN_LEAF_HOPS
}

/// What the first `n` writes last wrote under a key, if one did.
pub open spec fn last_write(writes: Seq<Write>, n: int, key: Seq<u8>) -> Option<Option<Seq<u8>>>
    decreases n,
{
    if n <= 0 {
        None
    } else if writes[n - 1].key == key {
        Some(writes[n - 1].value)
    } else {
        last_write(writes, n - 1, key)
    }
}

proof fn lemma_last_write(
    ts: Seq<EmbeddedTxn>,
    cs: Seq<EmbeddedCompute>,
    writes: Seq<Write>,
    n: int,
    key: Seq<u8>,
)
    requires
        writes_made(ts, cs, writes),
        0 <= n <= writes.len(),
    ensures
        last_write(writes, n, key) matches Some(value) ==> {
            &&& ts[n].modified@.contains(key)
            &&& cs[n].tree.rows().contains_key(key)
            &&& stands_for(cs[n].tree.rows()[key], value)
        },
    decreases n,
{
    if n > 0 {
        lemma_last_write(ts, cs, writes, n - 1, key);
        let w = writes[n - 1];
        let row = choose|row: LeafRow| #[trigger]
            wrote_row(ts[n - 1], cs[n - 1], ts[n - 1 + 1], cs[n - 1 + 1], w.key, row) && stands_for(
                row,
                w.value,
            );
        assert(wrote_row(ts[n - 1], cs[n - 1], ts[n], cs[n], w.key, row));
    }
}

/// All writes of a committed transaction are visible at once: every transaction that
/// reads at the commit LSN or later finds what was last written under each key, be it
/// the value that was put, or nothing after a delete.
pub proof fn law_committed_writes_are_read(
    ts: Seq<EmbeddedTxn>,
    cs: Seq<EmbeddedCompute>,
    writes: Seq<Write>,
    after: EmbeddedCompute,
    lsn: u64,
    reader: EmbeddedTxn,
)
    requires
        writes_made(ts, cs, writes),
        all_stamped(cs.last().tree.rows(), after.tree.rows(), ts.last().modified@, lsn, true),
        after.tree.depth() < MAX_SCAN_LEAF_HOPS,
        lsn <= reader.read_lsn,
    ensures
        forall|key: Seq<u8>|
            (#[trigger] last_write(writes, writes.len() as int, key)) matches Some(value)
                ==> version_at(reader, after, key) == RowAt::Value(value),
{
    let n = writes.len() as int;
    assert forall|key: Seq<u8>| (#[trigger] last_write(writes, n, key)) is Some implies version_at(
        reader,
        after,
        key,
    ) == RowAt::Value(last_write(writes, n, key)->0) by {
        lemma_last_write(ts, cs, writes, n, key);
        let row = cs[n].tree.rows()[key];
        law_commit_visibility(row, lsn, reader.undo_txn_id, reader.read_lsn);
        assert(after.tree.rows().dom().contains(key));
    }
}

/// The transaction holds no copy of an undo page: it has not followed undo records yet,
/// and put none down.
pub open spec fn no_undo_copies(t: &EmbeddedTxn) -> bool {
    forall|x: u64|
        #![trigger page_views(t.dirty@).contains_key(x)]
        #![trigger page_views(t.ro_cache@).contains_key(x)]
        x >= UNDO_BASE ==> !page_views(t.dirty@).contains_key(x) && !page_views(
            t.ro_cache@,
        ).contains_key(x)
}

/// What a transaction finds of a row when the intents of transaction `id` do not count.
pub open spec fn settled(t: EmbeddedTxn, c: EmbeddedCompute, key: Seq<u8>, id: u64) -> RowAt {
    match c.row(key) {
        Some(row) => if is_intent(row.meta.flags) && row.meta.intent_txn_id == id {
            match undo_version(t.readable(&c), row.meta.undo_ptr, t.read_lsn) {
                Walk::Version(v) => RowAt::Value(v),
                w => RowAt::Failed(w),
            }
        } else {
            version_at(t, c, key)
        },
        None => RowAt::Value(None),
    }
}

/// Records on undo pages, as a transaction without copies reads them.
proof fn lemma_reads_cached(reader: EmbeddedTxn, c: EmbeddedCompute, free: Set<u64>)
    requires
        no_undo_copies(&reader),
        forall|x: u64| x < UNDO_BASE ==> #[trigger] free.contains(x),
    ensures
        keeps_records(c.pages(), reader.readable(&c), free),
        forall|u: UndoPtr| #[trigger]
            undo_here(reader.readable(&c), u) && !free.contains(u.page_id) ==> undo_here(
                c.pages(),
                u,
            ) && c.pages()[u.page_id] == reader.readable(&c)[u.page_id],
{
    let m = c.pages();
    let m2 = reader.readable(&c);
    assert forall|u: UndoPtr| #[trigger]
        undo_here(m, u) && undo_wf(m[u.page_id]) && !free.contains(u.page_id) implies undo_here(
        m2,
        u,
    ) && undo_wf(m2[u.page_id]) && undo_at(m2, u) == undo_at(m, u) by {
        let x = u.page_id;
        assert(x >= UNDO_BASE);
        assert(!page_views(reader.dirty@).contains_key(x));
        assert(m2.contains_key(x) && m2[x] == m[x]);
    }
    assert forall|u: UndoPtr| #[trigger]
        undo_here(m2, u) && !free.contains(u.page_id) implies undo_here(m, u) && m[u.page_id]
        == m2[u.page_id] by {
        let x = u.page_id;
        assert(x >= UNDO_BASE);
        assert(!page_views(reader.dirty@).contains_key(x));
    }
}

/// A transaction without copies finds the same version where records stay.
proof fn lemma_same_version(
    reader: EmbeddedTxn,
    c0: EmbeddedCompute,
    c1: EmbeddedCompute,
    p: Option<UndoPtr>,
    floor: u64,
    free: Set<u64>,
)
    requires
        no_undo_copies(&reader),
        floor <= reader.read_lsn,
        forall|x: u64| x < UNDO_BASE ==> #[trigger] free.contains(x),
        chained(c0.pages(), p, floor, free),
        keeps_records(c0.pages(), c1.pages(), free),
    ensures
        super::visibility::walk_finite(reader.readable(&c1), p, reader.read_lsn),
        undo_version(reader.readable(&c1), p, reader.read_lsn) == undo_version(
            reader.readable(&c0),
            p,
            reader.read_lsn,
        ),
{
    let m0 = reader.readable(&c0);
    let m1 = reader.readable(&c1);
    lemma_reads_cached(reader, c0, free);
    lemma_reads_cached(reader, c1, free);
    let n = choose|n: nat| #[trigger] chain_sound(c0.pages(), p, floor, free, n);
    lemma_chain_kept(c0.pages(), m0, p, floor, free, free, n);
    lemma_chain_walk(m0, p, floor, free, reader.read_lsn, n);
    assert(keeps_records(m0, m1, free)) by {
        assert forall|u: UndoPtr| #[trigger]
            undo_here(m0, u) && undo_wf(m0[u.page_id]) && !free.contains(u.page_id) implies undo_here(
            m1,
            u,
        ) && undo_wf(m1[u.page_id]) && undo_at(m1, u) == undo_at(m0, u) by {
            assert(undo_here(c0.pages(), u));
            assert(undo_here(c1.pages(), u));
        }
    }
    law_kept_records_read_alike(m0, m1, p, reader.read_lsn, free);
    law_same_records_same_version(m0, m1, p, reader.read_lsn);
}

/// A row that stands as it did is found as before where records stay.
proof fn lemma_same_row_settled(
    reader: EmbeddedTxn,
    c0: EmbeddedCompute,
    c1: EmbeddedCompute,
    key: Seq<u8>,
    id: u64,
    floor: u64,
)
    requires
        no_undo_copies(&reader),
        floor <= reader.read_lsn,
        sound(&c0, floor),
        keeps_records(c0.pages(), c1.pages(), unused(cached_meta(&c0))),
        c1.row(key) == c0.row(key),
    ensures
        settled(reader, c1, key, id) == settled(reader, c0, key, id),
        version_at(reader, c1, key) == version_at(reader, c0, key),
{
    let free = unused(cached_meta(&c0));
    match c0.row(key) {
        Some(row) => {
            assert(c0.tree.rows().contains_key(key));
            if is_intent(row.meta.flags) || row.meta.commit_lsn > floor {
                lemma_same_version(reader, c0, c1, row.meta.undo_ptr, floor, free);
            }
        },
        None => {},
    }
}

/// A write changes nothing for a snapshot of another transaction, once the writer's
/// intents do not count.
pub proof fn law_write_leaves_snapshots(
    t0: EmbeddedTxn,
    c0: EmbeddedCompute,
    t1: EmbeddedTxn,
    c1: EmbeddedCompute,
    key: Seq<u8>,
    row: LeafRow,
    reader: EmbeddedTxn,
    floor: u64,
    other: Seq<u8>,
)
    requires
        wrote_row(t0, c0, t1, c1, key, row),
        c0.tree.depth() < MAX_SCAN_LEAF_HOPS,
        c1.tree.depth() < MAX_SCAN_LEAF_HOPS,
        sound(&c0, floor),
        segment_sound(&t0, &c0),
        floor <= reader.read_lsn,
        no_undo_copies(&reader),
        reader.undo_txn_id != t0.undo_txn_id,
    ensures
        settled(reader, c1, other, row.meta.intent_txn_id) == settled(
            reader,
            c0,
            other,
            row.meta.intent_txn_id,
        ),
{
    let id = row.meta.intent_txn_id;
    let free = unused(cached_meta(&c0));
    let m0 = reader.readable(&c0);
    let m1 = reader.readable(&c1);
    let lsn = reader.read_lsn;
    assert(c1.tree.rows().contains_key(key));
    match write_case(c0.row(key), t0.undo_txn_id) {
        WriteCase::Committed(prev) => {
            let rec = choose|rec: UndoRecord| #[trigger] rec@ == t0.undo_fields(prev);
            let plan = t0.undo_step(&c0, t0.undo_fields(prev))->Placed_0;
            law_undo_write_keeps_sound(t0, c0, t1, c1, rec, plan, floor);
            if other == key {
                let u = plan.ptr;
                assert(c0.tree.rows().contains_key(key));
                lemma_reads_cached(reader, c1, unused(cached_meta(&c1)));
                assert(undo_here(m1, u));
                super::history::lemma_wf_readable(m1[u.page_id], u.slot_id as int);
                if prev.meta.commit_lsn > lsn {
                    lemma_same_version(reader, c0, c1, prev.meta.undo_ptr, floor, free);
                }
                law_overwritten_version_is_found(m1, u, prev.meta, prev.value, lsn);
            } else {
                lemma_same_row_settled(reader, c0, c1, other, id, floor);
            }
        },
        WriteCase::Own(prev) => {
            assert(c0.tree.rows().contains_key(key));
            if other != key {
                lemma_same_row_settled(reader, c0, c1, other, id, floor);
            } else {
                assert(m1 == m0);
            }
        },
        _ => {
            if other != key {
                lemma_same_row_settled(reader, c0, c1, other, id, floor);
            } else {
                lemma_version_none(m1, lsn);
            }
        },
    }
}

/// The engine stays sound through the writes, and snapshots stay as they are.
proof fn lemma_writes_leave_snapshots(
    ts: Seq<EmbeddedTxn>,
    cs: Seq<EmbeddedCompute>,
    writes: Seq<Write>,
    n: int,
    reader: EmbeddedTxn,
    floor: u64,
    key: Seq<u8>,
)
    requires
        writes_made(ts, cs, writes),
        0 <= n <= writes.len(),
        sound(&cs[0], floor),
        segment_sound(&ts[0], &cs[0]),
        staged_cached(&ts[0], &cs[0]),
        floor <= reader.read_lsn,
        no_undo_copies(&reader),
        ts[0].undo_txn_id is Some,
        reader.undo_txn_id != ts[0].undo_txn_id,
    ensures
        sound(&cs[n], floor),
        segment_sound(&ts[n], &cs[n]),
        staged_cached(&ts[n], &cs[n]),
        ts[n].undo_txn_id == ts[0].undo_txn_id,
        settled(reader, cs[n], key, ts[0].undo_txn_id->0) == settled(
            reader,
            cs[0],
            key,
            ts[0].undo_txn_id->0,
        ),
    decreases n,
{
    if n > 0 {
        lemma_writes_leave_snapshots(ts, cs, writes, n - 1, reader, floor, key);
        let w = writes[n - 1];
        let row = choose|row: LeafRow| #[trigger]
            wrote_row(ts[n - 1], cs[n - 1], ts[n - 1 + 1], cs[n - 1 + 1], w.key, row) && stands_for(
                row,
                w.value,
            );
        assert(wrote_row(ts[n - 1], cs[n - 1], ts[n], cs[n], w.key, row));
        lemma_write_keeps_sound(ts[n - 1], cs[n - 1], ts[n], cs[n], w.key, row);
        assert(cs[n - 1].tree.depth() < MAX_SCAN_LEAF_HOPS);
        assert(cs[n].tree.depth() < MAX_SCAN_LEAF_HOPS);
        law_write_leaves_snapshots(
            ts[n - 1],
            cs[n - 1],
            ts[n],
            cs[n],
            w.key,
            row,
            reader,
            floor,
            key,
        );
    }
}

/// A transaction changes nothing for older snapshots: another transaction that reads
/// below the commit LSN finds of every row, after the commit, what it found when the
/// first one began; and the engine stays sound.
///
/// The transaction went through the writes, was prepared in `c`, and its pages are cached
/// in `after`. No row was its intent when it began, and the reader holds no copy of an
/// undo page.
pub proof fn law_commit_leaves_snapshots(
    ts: Seq<EmbeddedTxn>,
    cs: Seq<EmbeddedCompute>,
    writes: Seq<Write>,
    t: EmbeddedTxn,
    c: EmbeddedCompute,
    plan: CommitPlan,
    after: EmbeddedCompute,
    reader: EmbeddedTxn,
    floor: u64,
    key: Seq<u8>,
)
    requires
        writes_made(ts, cs, writes),
        sound(&cs[0], floor),
        segment_sound(&ts[0], &cs[0]),
        staged_cached(&ts[0], &cs[0]),
        ts[0].undo_txn_id is Some,
        forall|k: Seq<u8>| #[trigger]
            cs[0].tree.rows().contains_key(k) ==> !(is_intent(cs[0].tree.rows()[k].meta.flags)
                && Some(cs[0].tree.rows()[k].meta.intent_txn_id) == ts[0].undo_txn_id),
        ({
            let t0 = ts.last();
            let c0 = cs.last();
            &&& first_lost(c0.tree.rows(), t0.modified.keys@, t0.undo_txn_id->0, 0)
                >= t0.modified.keys@.len()
            &&& c.pages() == tail_cached(&t0, &c0)
            &&& staged_but_tree(&t0, &c0, &t)
            &&& all_stamped(c0.tree.rows(), c.tree.rows(), t0.modified@, plan.end_lsn, true)
            &&& plan_pages(plan, t, c, commit_meta_of(&t0, &c0)->0)
        }),
        forall|x: u64| #[trigger] page_views(t.bptree_dirty@).contains_key(x) ==> x < UNDO_BASE,
        after.tree == c.tree,
        after.pages() == put_all(c.pages(), plan.pages@, plan.pages@.len() as int),
        after.tree.depth() < MAX_SCAN_LEAF_HOPS,
        floor <= reader.read_lsn < plan.end_lsn,
        no_undo_copies(&reader),
        reader.undo_txn_id != ts[0].undo_txn_id,
    ensures
        sound(&after, floor),
        version_at(reader, after, key) == version_at(reader, cs[0], key),
{
    let n = writes.len() as int;
    let t0 = ts[n];
    let c0 = cs[n];
    let id = ts[0].undo_txn_id->0;
    lemma_writes_leave_snapshots(ts, cs, writes, n, reader, floor, key);
    law_commit_keeps_sound(t0, c0, t, c, plan, after, floor);
    assert(cs[0].tree.depth() < MAX_SCAN_LEAF_HOPS && cs[n].tree.depth() < MAX_SCAN_LEAF_HOPS);
    assert(settled(reader, cs[0], key, id) == version_at(reader, cs[0], key)) by {
        if cs[0].tree.rows().contains_key(key) {
        }
    }
    let free = unused(cached_meta(&c0));
    assert(after.tree.rows().dom().contains(key) == c0.tree.rows().dom().contains(key));
    if c0.tree.rows().contains_key(key) && t0.modified@.contains(key) {
        let row = c0.tree.rows()[key];
        let ks = t0.modified.keys@;
        let j = choose|j: int| 0 <= j < ks.len() && #[trigger] ks[j]@ == key;
        super::soundness::lemma_all_owned(c0.tree.rows(), ks, id, 0, j);
        assert(row_chained(c0.pages(), row, floor, free));
        law_commit_visibility(row, plan.end_lsn, reader.undo_txn_id, reader.read_lsn);
        assert(after.tree.rows()[key] == stamped(row, plan.end_lsn, true));
        lemma_same_version(reader, c0, after, row.meta.undo_ptr, floor, free);
    } else {
        assert(after.row(key) == c0.row(key));
        lemma_same_row_settled(reader, c0, after, key, id, floor);
        match c0.row(key) {
            Some(row) => {
                lemma_own_is_modified(ts, cs, writes, n, key);
            },
            None => {},
        }
    }
}

/// A row that is the transaction's intent after its writes is one that it wrote.
proof fn lemma_own_is_modified(
    ts: Seq<EmbeddedTxn>,
    cs: Seq<EmbeddedCompute>,
    writes: Seq<Write>,
    n: int,
    key: Seq<u8>,
)
    requires
        writes_made(ts, cs, writes),
        0 <= n <= writes.len(),
        ts[0].undo_txn_id is Some,
        forall|k: Seq<u8>| #[trigger]
            cs[0].tree.rows().contains_key(k) ==> !(is_intent(cs[0].tree.rows()[k].meta.flags)
                && Some(cs[0].tree.rows()[k].meta.intent_txn_id) == ts[0].undo_txn_id),
    ensures
        cs[n].tree.rows().contains_key(key) && is_intent(cs[n].tree.rows()[key].meta.flags) && Some(
            cs[n].tree.rows()[key].meta.intent_txn_id,
        ) == ts[0].undo_txn_id ==> ts[n].modified@.contains(key),
    decreases n,
{
    if n > 0 {
        lemma_own_is_modified(ts, cs, writes, n - 1, key);
        let w = writes[n - 1];
        let row = choose|row: LeafRow| #[trigger]
            wrote_row(ts[n - 1], cs[n - 1], ts[n - 1 + 1], cs[n - 1 + 1], w.key, row) && stands_for(
                row,
                w.value,
            );
        assert(wrote_row(ts[n - 1], cs[n - 1], ts[n], cs[n], w.key, row));
    }
}

/// The transaction went through the states `ts`, in the engine's states `cs`, by putting
/// down the undo records one after another.
pub open spec fn records_put(
    ts: Seq<EmbeddedTxn>,
    cs: Seq<EmbeddedCompute>,
    recs: Seq<UndoRecord>,
    plans: Seq<UndoPlan>,
) -> bool {
    &&& ts.len() == recs.len() + 1
    &&& cs.len() == recs.len() + 1
    &&& plans.len() == recs.len()
    &&& forall|i: int|
        0 <= i < recs.len() ==> {
            &&& #[trigger] undo_kept(ts[i], cs[i], ts[i + 1], cs[i + 1], plans[i])
            &&& ts[i].undo_step(&cs[i], recs[i]@) == UndoStep::Placed(plans[i])
            &&& cs[i + 1].tree == cs[i].tree
            &&& based(cached_meta(&cs[i])).next_undo_page_id < u64::MAX
        }
}

proof fn lemma_records_put(
    ts: Seq<EmbeddedTxn>,
    cs: Seq<EmbeddedCompute>,
    recs: Seq<UndoRecord>,
    plans: Seq<UndoPlan>,
    floor: u64,
    n: int,
    i: int,
)
    requires
        records_put(ts, cs, recs, plans),
        sound(&cs[0], floor),
        segment_sound(&ts[0], &cs[0]),
        staged_cached(&ts[0], &cs[0]),
        0 <= n <= recs.len(),
    ensures
        sound(&cs[n], floor),
        segment_sound(&ts[n], &cs[n]),
        staged_cached(&ts[n], &cs[n]),
        0 <= i < n ==> {
            let u = plans[i].ptr;
            let s = page_views(ts[n].dirty@);
            &&& undo_here(cs[n].pages(), u)
            &&& undo_wf(cs[n].pages()[u.page_id])
            &&& !unused(cached_meta(&cs[n])).contains(u.page_id)
            &&& undo_at(cs[n].pages(), u) == stored(recs[i]@)
            &&& s.contains_key(u.page_id)
        },
    decreases n,
{
    if n > 0 {
        lemma_records_put(ts, cs, recs, plans, floor, n - 1, i);
        let (t0, c0, t1, c1) = (ts[n - 1], cs[n - 1], ts[n], cs[n]);
        let plan = plans[n - 1];
        let rec = recs[n - 1];
        assert(undo_kept(ts[n - 1], cs[n - 1], ts[n - 1 + 1], cs[n - 1 + 1], plans[n - 1]));
        law_undo_write_keeps_sound(t0, c0, t1, c1, rec, plan, floor);
        lemma_undo_write_is_cached(t0, c0, t1, c1, plan);
        lemma_sound_after(c0, c1, floor);
        if 0 <= i < n - 1 {
            let u = plans[i].ptr;
            assert(undo_here(c0.pages(), u));
            lemma_staged_more(
                page_views(t0.dirty@),
                plan.writes,
                plan.writes.len() as int,
                u.page_id,
            );
        }
    }
}

proof fn lemma_staged_more(d: Map<u64, Seq<u8>>, ws: Seq<(u64, Seq<u8>)>, n: int, x: u64)
    requires
        d.contains_key(x),
    ensures
        super::txn::written(d, ws, n).contains_key(x),
    decreases n,
{
    if n > 0 {
        lemma_staged_more(d, ws, n - 1, x);
    }
}

/// All undo records that a transaction put down read back as they were put down, on the
/// pages that it staged, however many pages they take.
pub proof fn law_undo_records_read_back(
    ts: Seq<EmbeddedTxn>,
    cs: Seq<EmbeddedCompute>,
    recs: Seq<UndoRecord>,
    plans: Seq<UndoPlan>,
    floor: u64,
)
    requires
        records_put(ts, cs, recs, plans),
        sound(&cs[0], floor),
        segment_sound(&ts[0], &cs[0]),
        staged_cached(&ts[0], &cs[0]),
    ensures
        forall|i: int|
            0 <= i < recs.len() ==> {
                let u = (#[trigger] plans[i]).ptr;
                let staged = page_views(ts.last().dirty@);
                &&& undo_here(staged, u)
                &&& undo_at(staged, u) == stored(recs[i]@)
            },
        sound(&cs.last(), floor),
{
    let n = recs.len() as int;
    lemma_records_put(ts, cs, recs, plans, floor, n, 0);
    assert forall|i: int| 0 <= i < recs.len() implies {
        let u = (#[trigger] plans[i]).ptr;
        let staged = page_views(ts.last().dirty@);
        &&& undo_here(staged, u)
        &&& undo_at(staged, u) == stored(recs[i]@)
    } by {
        lemma_records_put(ts, cs, recs, plans, floor, n, i);
    }
}

/// The last write of a key is the one that no later write of the key follows.
pub proof fn law_last_write(writes: Seq<Write>, n: int, key: Seq<u8>, i: int)
    requires
        0 <= n <= writes.len(),
    ensures
        0 <= i < n && writes[i].key == key && (forall|j: int|
            i < j < n ==> (#[trigger] writes[j]).key != key) ==> last_write(writes, n, key) == Some(
            writes[i].value,
        ),
        (forall|j: int| 0 <= j < n ==> (#[trigger] writes[j]).key != key) ==> last_write(
            writes,
            n,
            key,
        ) is None,
    decreases n,
{
    if n > 0 {
        law_last_write(writes, n - 1, key, i);
    }
}

} // verus!
