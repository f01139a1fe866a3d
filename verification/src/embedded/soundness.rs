//! What holds of an engine at all times: every undo record that some snapshot may
//! follow is there, on a page that is not given out again.
use vstd::prelude::*;

use super::commit::{all_stamped, commit_meta_of, first_lost, lemma_put_all, linked, owned,
    pages_from, plan_pages, staged_but_tree, staged_in, tail_cached, tail_staged, with_tree,
    CommitPlan};
use super::history::{commit_taken, keeps_records, law_commit_keeps_records, law_undo_write_is_found,
    law_undo_write_keeps_records, lemma_wf_readable, row_sound, undo_put, undo_taken, walk_sound};
use super::inprocess::put_all;
use super::page_map::lists_pages;
use super::resolve::{base_ends, kept_row, resolution, resolvable, row_after, row_in};
use super::txn::{intent_row, version_at, written, EmbeddedCompute, EmbeddedTxn, UndoStep};
use super::undo::{based, next_undo_page, undo_page_taken, UndoPlan, UNDO_BASE};
use super::visibility::{is_intent, row_seen, stops_at, undo_at, undo_here, undo_version,
    walk_finite, Visibility};
use super::write::{no_undo, row_written, undo_kept};
use crate::meta_page::{is_meta, is_meta_page, law_meta_round_trip, meta_of, MetaFields,
    META_PAGE_ID, UNDO_FREE_CAP};
use crate::page_bptree::node_page::{stored_undo_ptr, LeafRow};
use crate::txn_page_provider::page_views;
use crate::undo_pg::{stored, undo_wf, UndoPtr, UndoRecord};

verus! {

/// Page ids that hold no undo record in use: free undo pages, undo pages that were never
/// given out, and pages of other kinds.
pub open spec fn unused(meta: MetaFields) -> Set<u64> {
    Set::new(
        |x: u64|
            meta.undo_free.contains(x) || x >= based(meta).next_undo_page_id || x < UNDO_BASE,
    )
}

/// The list of free undo pages: no page is on it twice, and all were given out before.
pub open spec fn free_list_ok(meta: MetaFields) -> bool {
    &&& meta.undo_free.len() <= UNDO_FREE_CAP
    &&& meta.undo_free.no_duplicates()
    &&& forall|i: int|
        0 <= i < meta.undo_free.len() ==> UNDO_BASE <= #[trigger] meta.undo_free[i] < based(
            meta,
        ).next_undo_page_id
}

/// The records from `p` on are there, on pages in use, down to the first version that is
/// not newer than `floor`; they are at most `n`, and each keeps a committed version.
pub open spec fn chain_sound(
    m: Map<u64, Seq<u8>>,
    p: Option<UndoPtr>,
    floor: u64,
    unused: Set<u64>,
    n: nat,
) -> bool
    decreases n,
{
    match p {
        None => true,
        Some(u) => {
            let f = undo_at(m, u);
            &&& n > 0
            &&& undo_here(m, u)
            &&& undo_wf(m[u.page_id])
            &&& !unused.contains(u.page_id)
            &&& !is_intent(f.old_flags as u16)
            &&& f.old_commit_lsn > floor ==> chain_sound(m, f.prev, floor, unused, (n - 1) as nat)
        },
    }
}

/// The records from `p` on that snapshots from `floor` on may follow are there.
pub open spec fn chained(
    m: Map<u64, Seq<u8>>,
    p: Option<UndoPtr>,
    floor: u64,
    unused: Set<u64>,
) -> bool {
    exists|n: nat| #[trigger] chain_sound(m, p, floor, unused, n)
}

/// The undo records that snapshots from `floor` on may need of a row are there; for an
/// intent, also those that taking it back needs.
pub open spec fn row_chained(
    m: Map<u64, Seq<u8>>,
    row: LeafRow,
    floor: u64,
    unused: Set<u64>,
) -> bool {
    &&& stored_undo_ptr(row.meta.undo_ptr) == row.meta.undo_ptr
    &&& is_intent(row.meta.flags) || row.meta.commit_lsn > floor ==> chained(
        m,
        row.meta.undo_ptr,
        floor,
        unused,
    )
}

/// The meta page that an engine has cached.
pub open spec fn cached_meta(c: &EmbeddedCompute) -> MetaFields {
    meta_of(c.pages()[META_PAGE_ID])
}

/// The engine has all undo records that snapshots from `floor` on may need, and gives
/// none of their pages out again.
pub open spec fn sound(c: &EmbeddedCompute, floor: u64) -> bool {
    &&& c.pages().contains_key(META_PAGE_ID)
    &&& is_meta(c.pages()[META_PAGE_ID])
    &&& free_list_ok(cached_meta(c))
    &&& forall|k: Seq<u8>| #[trigger]
        c.tree.rows().contains_key(k) ==> row_chained(
            c.pages(),
            c.tree.rows()[k],
            floor,
            unused(cached_meta(c)),
        )
}

/// The transaction's last undo page, if it has one, is well formed, in use, and cached as
/// the transaction has it.
pub open spec fn segment_sound(t: &EmbeddedTxn, c: &EmbeddedCompute) -> bool {
    t.undo.last_page_id matches Some(cur) ==> {
        &&& c.pages().contains_key(cur)
        &&& undo_wf(c.pages()[cur])
        &&& t.own_page(c, cur) == Some(c.pages()[cur])
        &&& !unused(cached_meta(c)).contains(cur)
    }
}

/// Every page that the transaction staged is cached as it staged it: no other one wrote
/// such a page since.
pub open spec fn staged_cached(t: &EmbeddedTxn, c: &EmbeddedCompute) -> bool {
    forall|x: u64| #[trigger]
        page_views(t.dirty@).contains_key(x) ==> c.pages().contains_key(x) && c.pages()[x]
            == page_views(t.dirty@)[x]
}

/// The transaction holds no copy of an undo page that may differ from the cached one.
pub open spec fn reads_cache(t: &EmbeddedTxn, c: &EmbeddedCompute) -> bool {
    forall|x: u64|
        #![trigger page_views(t.dirty@).contains_key(x)]
        #![trigger page_views(t.ro_cache@).contains_key(x)]
        x >= UNDO_BASE && (page_views(t.dirty@).contains_key(x) || page_views(
            t.ro_cache@,
        ).contains_key(x)) ==> c.pages().contains_key(x) && t.readable(c)[x] == c.pages()[x]
}

/// A chain that reaches down to `floor` reaches as far as any later snapshot follows it.
pub proof fn lemma_chain_walk(
    m: Map<u64, Seq<u8>>,
    p: Option<UndoPtr>,
    floor: u64,
    unused: Set<u64>,
    read_lsn: u64,
    n: nat,
)
    requires
        chain_sound(m, p, floor, unused, n),
        floor <= read_lsn,
    ensures
        walk_sound(m, p, read_lsn, unused, n),
    decreases n,
{
    match p {
        None => {},
        Some(u) => {
            let f = undo_at(m, u);
            if !stops_at(f, read_lsn) {
                lemma_chain_walk(m, f.prev, floor, unused, read_lsn, (n - 1) as nat);
            }
        },
    }
}

/// Where records stay, chains stay.
pub proof fn lemma_chain_kept(
    m: Map<u64, Seq<u8>>,
    m2: Map<u64, Seq<u8>>,
    p: Option<UndoPtr>,
    floor: u64,
    free: Set<u64>,
    free2: Set<u64>,
    n: nat,
)
    requires
        chain_sound(m, p, floor, free, n),
        keeps_records(m, m2, free),
        free2.subset_of(free),
    ensures
        chain_sound(m2, p, floor, free2, n),
    decreases n,
{
    match p {
        None => {},
        Some(u) => {
            let f = undo_at(m, u);
            if f.old_commit_lsn > floor {
                lemma_chain_kept(m, m2, f.prev, floor, free, free2, (n - 1) as nat);
            }
        },
    }
}

/// Where records stay, rows keep theirs.
pub proof fn lemma_row_kept(
    m: Map<u64, Seq<u8>>,
    m2: Map<u64, Seq<u8>>,
    row: LeafRow,
    floor: u64,
    free: Set<u64>,
    free2: Set<u64>,
)
    requires
        row_chained(m, row, floor, free),
        keeps_records(m, m2, free),
        free2.subset_of(free),
    ensures
        row_chained(m2, row, floor, free2),
{
    if chained(m, row.meta.undo_ptr, floor, free) {
        let n = choose|n: nat| #[trigger] chain_sound(m, row.meta.undo_ptr, floor, free, n);
        lemma_chain_kept(m, m2, row.meta.undo_ptr, floor, free, free2, n);
    }
}

/// Fewer pages are taken for unused: records that stayed stay.
pub(crate) proof fn lemma_keeps_more(m: Map<u64, Seq<u8>>, m2: Map<u64, Seq<u8>>, a: Set<u64>, b: Set<u64>)
    requires
        keeps_records(m, m2, a),
        a.subset_of(b),
    ensures
        keeps_records(m, m2, b),
{
}

/// Every snapshot from `floor` on reads every row of a sound engine: it finds a value or
/// none, or it waits for the transaction that means to write the row.
pub proof fn law_sound_rows_are_read(
    c: EmbeddedCompute,
    floor: u64,
    reader: EmbeddedTxn,
    key: Seq<u8>,
)
    requires
        sound(&c, floor),
        floor <= reader.read_lsn,
        reads_cache(&reader, &c),
    ensures
        row_sound(reader, c, key, unused(cached_meta(&c))),
        reader.row_readable(&c, key),
        !(version_at(reader, c, key) is Failed),
{
    let free = unused(cached_meta(&c));
    let m = reader.readable(&c);
    match c.row(key) {
        None => {},
        Some(row) => match row_seen(row.meta, reader.undo_txn_id, reader.read_lsn) {
            Visibility::Undo(p) => {
                assert(c.tree.rows().contains_key(key));
                let n = choose|n: nat| #[trigger] chain_sound(c.pages(), p, floor, free, n);
                assert(keeps_records(c.pages(), m, free)) by {
                    assert forall|u: UndoPtr| #[trigger]
                        undo_here(c.pages(), u) && undo_wf(c.pages()[u.page_id]) && !free.contains(
                            u.page_id,
                        ) implies undo_here(m, u) && undo_wf(m[u.page_id]) && undo_at(m, u)
                        == undo_at(c.pages(), u) by {
                        let x = u.page_id;
                        assert(m.contains_key(x));
                        assert(m[x] == c.pages()[x]) by {
                            if page_views(reader.dirty@).contains_key(x) || page_views(
                                reader.ro_cache@,
                            ).contains_key(x) {
                                assert(x >= UNDO_BASE);
                            }
                        }
                    }
                }
                lemma_chain_kept(c.pages(), m, p, floor, free, free, n);
                lemma_chain_walk(m, p, floor, free, reader.read_lsn, n);
                lemma_sound_version(m, p, reader.read_lsn, free, n);
            },
            _ => {},
        },
    }
}

/// Following records that are there leads to a version.
proof fn lemma_sound_version(
    m: Map<u64, Seq<u8>>,
    p: Option<UndoPtr>,
    read_lsn: u64,
    free: Set<u64>,
    n: nat,
)
    requires
        walk_sound(m, p, read_lsn, free, n),
    ensures
        walk_finite(m, p, read_lsn),
        undo_version(m, p, read_lsn) is Version,
    decreases n,
{
    super::history::law_kept_records_read_alike(m, m, p, read_lsn, free);
    super::visibility::law_same_records_same_version(m, m, p, read_lsn);
    match p {
        None => {
            super::visibility::lemma_version_none(m, read_lsn);
        },
        Some(u) => {
            super::visibility::lemma_version_step(m, u, read_lsn);
            if !stops_at(undo_at(m, u), read_lsn) {
                lemma_sound_version(m, undo_at(m, u).prev, read_lsn, free, (n - 1) as nat);
            }
        },
    }
}

/// Every intent of a sound engine can be taken back.
pub proof fn law_sound_intents_are_resolvable(
    c: EmbeddedCompute,
    floor: u64,
    key: Seq<u8>,
    txn_id: u64,
)
    requires
        sound(&c, floor),
        row_in(c.tree.rows(), key) matches Some(row) ==> is_intent(row.meta.flags),
    ensures
        resolvable(c.pages(), row_in(c.tree.rows(), key)),
        !(resolution(c.pages(), row_in(c.tree.rows(), key), txn_id) is Fail),
{
    let m = c.pages();
    match row_in(c.tree.rows(), key) {
        None => {},
        Some(row) => {
            assert(c.tree.rows().contains_key(key));
            let free = unused(cached_meta(&c));
            let n = choose|n: nat| #[trigger]
                chain_sound(m, row.meta.undo_ptr, floor, free, n);
            match row.meta.undo_ptr {
                None => {
                    assert(base_ends(m, None, 0));
                },
                Some(u) => {
                    lemma_wf_readable(m[u.page_id], u.slot_id as int);
                    assert(base_ends(m, Some(u), 1));
                    super::resolve::lemma_base_step(m, u);
                },
            }
        },
    }
}

/// A transaction whose last undo page is sound can put down an undo record, while undo
/// page ids are left.
pub proof fn law_sound_undo_is_ready(c: EmbeddedCompute, floor: u64, t: EmbeddedTxn)
    requires
        sound(&c, floor),
        segment_sound(&t, &c),
        based(cached_meta(&c)).next_undo_page_id < u64::MAX,
    ensures
        t.undo_ready(&c),
{
}

/// What putting down an undo record leaves: the earlier records, the new one, and a list
/// of free pages on which neither is.
#[verifier::spinoff_prover]
pub proof fn law_undo_write_keeps_sound(
    t0: EmbeddedTxn,
    c0: EmbeddedCompute,
    t1: EmbeddedTxn,
    c1: EmbeddedCompute,
    rec: UndoRecord,
    plan: UndoPlan,
    floor: u64,
)
    requires
        sound(&c0, floor),
        segment_sound(&t0, &c0),
        undo_kept(t0, c0, t1, c1, plan),
        t0.undo_step(&c0, rec@) == UndoStep::Placed(plan),
        based(cached_meta(&c0)).next_undo_page_id < u64::MAX,
    ensures
        undo_put(t0, c0, t1, c1, rec, plan),
        c1.pages().contains_key(META_PAGE_ID),
        is_meta(c1.pages()[META_PAGE_ID]),
        free_list_ok(cached_meta(&c1)),
        unused(cached_meta(&c1)).subset_of(unused(cached_meta(&c0))),
        keeps_records(c0.pages(), c1.pages(), unused(cached_meta(&c0))),
        undo_here(c1.pages(), plan.ptr),
        undo_wf(c1.pages()[plan.ptr.page_id]),
        undo_at(c1.pages(), plan.ptr) == stored(rec@),
        !unused(cached_meta(&c1)).contains(plan.ptr.page_id),
        c1.pages()[plan.ptr.page_id] == page_views(t1.dirty@)[plan.ptr.page_id],
        page_views(t1.dirty@).contains_key(plan.ptr.page_id),
        plan.ptr.page_id >= UNDO_BASE,
{
    let meta = based(cached_meta(&c0));
    let pid = next_undo_page(meta);
    let free0 = unused(cached_meta(&c0));
    lemma_page_taken(cached_meta(&c0));
    reveal_with_fuel(written, 3);
    let mb = choose|mb: Seq<u8>| #[trigger]
        is_meta_page(mb, plan.meta) && c1.pages() == written(
            c0.pages(),
            plan.writes,
            plan.writes.len() as int,
        ).insert(META_PAGE_ID, mb) && page_views(t1.dirty@) == written(
            page_views(t0.dirty@),
            plan.writes,
            plan.writes.len() as int,
        ).insert(META_PAGE_ID, mb);
    assert(plan.meta == meta || plan.meta == undo_page_taken(meta));
    law_meta_round_trip(mb, plan.meta);
    assert(cached_meta(&c1) == plan.meta);
    assert(plan.ptr.page_id == pid && plan.meta == undo_page_taken(meta)
        || t0.undo.last_page_id == Some(plan.ptr.page_id));
    assert(plan.ptr.page_id != META_PAGE_ID);
    law_undo_write_keeps_records(t0, c0, t1, c1, rec, plan, t0);
    law_undo_write_is_found(t0, c0, t1, c1, rec, plan);
    assert(undo_taken(t0, c0).subset_of(free0));
    lemma_keeps_more(c0.pages(), c1.pages(), undo_taken(t0, c0), free0);
}

/// What taking the next undo page makes of the list of free pages.
pub(crate) proof fn lemma_page_taken(meta0: MetaFields)
    requires
        free_list_ok(meta0),
        based(meta0).next_undo_page_id < u64::MAX,
    ensures
        ({
            let meta = based(meta0);
            let pid = next_undo_page(meta);
            let left = undo_page_taken(meta);
            &&& pid >= UNDO_BASE
            &&& unused(meta0).contains(pid)
            &&& free_list_ok(meta)
            &&& unused(meta) == unused(meta0)
            &&& free_list_ok(left)
            &&& unused(left).subset_of(unused(meta0))
            &&& !unused(left).contains(pid)
            &&& forall|i: int|
                0 <= i < meta.undo_free.len() ==> #[trigger] meta.undo_free[i] != 0
            &&& forall|i: int|
                0 <= i < left.undo_free.len() ==> #[trigger] left.undo_free[i] != 0
        }),
{
    let meta = based(meta0);
    let pid = next_undo_page(meta);
    let left = undo_page_taken(meta);
    assert(unused(meta) =~= unused(meta0));
    if meta.undo_free.len() > 0 {
        let last = meta.undo_free.len() - 1;
        assert(meta.undo_free[last] == pid);
        assert(meta.undo_free.contains(pid));
        assert forall|x: u64| #[trigger] left.undo_free.contains(x) implies meta.undo_free.contains(x)
            && x != pid by {
            let i = left.undo_free.index_of(x);
            assert(left.undo_free[i] == x);
            assert(meta.undo_free[i] == x && i != last);
        }
        assert forall|i: int| 0 <= i < left.undo_free.len() implies UNDO_BASE
            <= #[trigger] left.undo_free[i] < based(left).next_undo_page_id by {
            assert(left.undo_free[i] == meta.undo_free[i]);
        }
    } else {
        assert(!left.undo_free.contains(pid));
    }
}

/// Rows that stay, or have their records, on pages that keep all records.
pub(crate) proof fn lemma_sound_after(c0: EmbeddedCompute, c1: EmbeddedCompute, floor: u64)
    requires
        sound(&c0, floor),
        c1.pages().contains_key(META_PAGE_ID),
        is_meta(c1.pages()[META_PAGE_ID]),
        free_list_ok(cached_meta(&c1)),
        unused(cached_meta(&c1)).subset_of(unused(cached_meta(&c0))),
        keeps_records(c0.pages(), c1.pages(), unused(cached_meta(&c0))),
        forall|k: Seq<u8>| #[trigger]
            c1.tree.rows().contains_key(k) ==> (c0.tree.rows().contains_key(k) && c0.tree.rows()[k]
                == c1.tree.rows()[k]) || row_chained(
                c1.pages(),
                c1.tree.rows()[k],
                floor,
                unused(cached_meta(&c1)),
            ),
    ensures
        sound(&c1, floor),
{
    assert forall|k: Seq<u8>| #[trigger] c1.tree.rows().contains_key(k) implies row_chained(
        c1.pages(),
        c1.tree.rows()[k],
        floor,
        unused(cached_meta(&c1)),
    ) by {
        if c0.tree.rows().contains_key(k) && c0.tree.rows()[k] == c1.tree.rows()[k] {
            lemma_row_kept(
                c0.pages(),
                c1.pages(),
                c0.tree.rows()[k],
                floor,
                unused(cached_meta(&c0)),
                unused(cached_meta(&c1)),
            );
        }
    }
}

/// A write that overwrites a committed row leaves the engine sound.
pub proof fn law_overwrite_keeps_sound(
    t0: EmbeddedTxn,
    c0: EmbeddedCompute,
    t1: EmbeddedTxn,
    c1: EmbeddedCompute,
    key: Seq<u8>,
    old: LeafRow,
    value: Seq<u8>,
    flags: u16,
    rec: UndoRecord,
    plan: UndoPlan,
    floor: u64,
)
    requires
        sound(&c0, floor),
        segment_sound(&t0, &c0),
        c0.tree.rows().contains_key(key),
        c0.tree.rows()[key] == old,
        !is_intent(old.meta.flags),
        rec@ == t0.undo_fields(old),
        t0.undo_step(&c0, rec@) == UndoStep::Placed(plan),
        undo_kept(t0, c0, t1, c1, plan),
        based(cached_meta(&c0)).next_undo_page_id < u64::MAX,
        row_written(
            t0,
            c0,
            t1,
            c1,
            key,
            intent_row(value, Some(plan.ptr), flags, t0.undo_txn_id->0, t0.intent_base_lsn),
        ),
    ensures
        sound(&c1, floor),
        segment_sound(&t1, &c1),
{
    law_undo_write_keeps_sound(t0, c0, t1, c1, rec, plan, floor);
    let row = intent_row(value, Some(plan.ptr), flags, t0.undo_txn_id->0, t0.intent_base_lsn);
    let free0 = unused(cached_meta(&c0));
    let free1 = unused(cached_meta(&c1));
    let f = undo_at(c1.pages(), plan.ptr);
    assert(f.prev == old.meta.undo_ptr);
    assert(chained(c1.pages(), row.meta.undo_ptr, floor, free1)) by {
        if old.meta.commit_lsn > floor {
            let n = choose|n: nat| #[trigger]
                chain_sound(c0.pages(), old.meta.undo_ptr, floor, free0, n);
            lemma_chain_kept(c0.pages(), c1.pages(), old.meta.undo_ptr, floor, free0, free1, n);
            assert(((n + 1) - 1) as nat == n);
            assert(chain_sound(c1.pages(), Some(plan.ptr), floor, free1, (n + 1) as nat));
        } else {
            assert(chain_sound(c1.pages(), Some(plan.ptr), floor, free1, 1));
        }
    }
    lemma_sound_after(c0, c1, floor);
}

/// A write that puts in a new row, or overwrites one of the transaction's own, leaves the
/// engine sound.
pub proof fn law_own_write_keeps_sound(
    t0: EmbeddedTxn,
    c0: EmbeddedCompute,
    t1: EmbeddedTxn,
    c1: EmbeddedCompute,
    key: Seq<u8>,
    row: LeafRow,
    floor: u64,
)
    requires
        sound(&c0, floor),
        segment_sound(&t0, &c0),
        no_undo(t0, c0, t1, c1),
        t1.ro_cache == t0.ro_cache,
        row_written(t0, c0, t1, c1, key, row),
        row.meta.undo_ptr is None || c0.tree.rows().contains_key(key) && is_intent(
            c0.tree.rows()[key].meta.flags,
        ) && c0.tree.rows()[key].meta.undo_ptr == row.meta.undo_ptr,
    ensures
        sound(&c1, floor),
        segment_sound(&t1, &c1),
{
    let free = unused(cached_meta(&c0));
    assert(chained(c1.pages(), row.meta.undo_ptr, floor, free)) by {
        if row.meta.undo_ptr is None {
            assert(chain_sound(c1.pages(), None, floor, free, 0));
        }
    }
    lemma_sound_after(c0, c1, floor);
}

/// Taking back intents leaves the engine sound: each row that comes back has the undo
/// records that it had.
pub proof fn law_resolve_keeps_sound(
    c0: EmbeddedCompute,
    c1: EmbeddedCompute,
    ks: Set<Seq<u8>>,
    txn_id: u64,
    floor: u64,
)
    requires
        sound(&c0, floor),
        c1.page_cache == c0.page_cache,
        super::resolve::all_resolved(c0.tree.rows(), c1.tree.rows(), c0.pages(), ks, txn_id),
    ensures
        sound(&c1, floor),
{
    let m = c0.pages();
    let free = unused(cached_meta(&c0));
    let rows = c0.tree.rows();
    assert forall|k: Seq<u8>| #[trigger] c1.tree.rows().contains_key(k) implies (rows.contains_key(k)
        && rows[k] == c1.tree.rows()[k]) || row_chained(m, c1.tree.rows()[k], floor, free) by {
        let row = c1.tree.rows()[k];
        assert(row_in(c1.tree.rows(), k) == Some(row));
        if row_in(rows, k) != Some(row) {
            assert(ks.contains(k));
            assert(row_after(rows, m, k, txn_id) == Some(row));
            assert(rows.contains_key(k));
            let cur = rows[k];
            assert(is_intent(cur.meta.flags));
            let u = cur.meta.undo_ptr->0;
            let n = choose|n: nat| #[trigger] chain_sound(m, cur.meta.undo_ptr, floor, free, n);
            assert(cur.meta.undo_ptr is Some) by {
                if cur.meta.undo_ptr is None {
                    assert(base_ends(m, None, 0));
                    let j = choose|j: nat| #[trigger] base_ends(m, None::<UndoPtr>, j);
                }
            }
            lemma_wf_readable(m[u.page_id], u.slot_id as int);
            assert(base_ends(m, Some(u), 1));
            super::resolve::lemma_base_step(m, u);
            let f = undo_at(m, u);
            assert(row == kept_row(f));
            let fl = f.old_flags as u16;
            assert(fl & 2u16 == 0 ==> (fl & !2u16) & 2u16 == 0) by (bit_vector);
            lemma_prev_stored(m, u);
            if row.meta.commit_lsn > floor {
                assert(chain_sound(m, f.prev, floor, free, (n - 1) as nat));
            }
        }
    }
    lemma_sound_after(c0, c1, floor);
}

/// The pointer in a record is as it is stored.
proof fn lemma_prev_stored(m: Map<u64, Seq<u8>>, u: UndoPtr)
    ensures
        stored_undo_ptr(undo_at(m, u).prev) == undo_at(m, u).prev,
        0 <= undo_at(m, u).old_commit_lsn <= u64::MAX,
{
}

/// An engine of which some rows were taken out, and others lost their undo records, is
/// sound.
pub proof fn law_gc_keeps_sound(
    c0: EmbeddedCompute,
    c1: EmbeddedCompute,
    dropped: Seq<Seq<u8>>,
    updated: Seq<(Seq<u8>, LeafRow)>,
    floor: u64,
)
    requires
        sound(&c0, floor),
        c1.page_cache == c0.page_cache,
        c1.tree.rows() == super::gc::rows_put(
            super::gc::rows_dropped(c0.tree.rows(), dropped, dropped.len() as int),
            updated,
            updated.len() as int,
        ),
        forall|i: int|
            0 <= i < updated.len() ==> (#[trigger] updated[i]).1.meta.undo_ptr is None,
    ensures
        sound(&c1, floor),
{
    let rows1 = super::gc::rows_dropped(c0.tree.rows(), dropped, dropped.len() as int);
    let m = c0.pages();
    let free = unused(cached_meta(&c0));
    assert forall|k: Seq<u8>| #[trigger] c1.tree.rows().contains_key(k) implies (
    c0.tree.rows().contains_key(k) && c0.tree.rows()[k] == c1.tree.rows()[k]) || row_chained(
        m,
        c1.tree.rows()[k],
        floor,
        free,
    ) by {
        lemma_row_put(rows1, updated, updated.len() as int, k);
        lemma_row_dropped(c0.tree.rows(), dropped, dropped.len() as int, k);
        if c1.tree.rows()[k].meta.undo_ptr is None {
            assert(chain_sound(m, None, floor, free, 0));
        }
    }
    lemma_sound_after(c0, c1, floor);
}

proof fn lemma_row_put(
    rows: Map<Seq<u8>, LeafRow>,
    ups: Seq<(Seq<u8>, LeafRow)>,
    n: int,
    k: Seq<u8>,
)
    requires
        0 <= n <= ups.len(),
        forall|i: int| 0 <= i < ups.len() ==> (#[trigger] ups[i]).1.meta.undo_ptr is None,
        super::gc::rows_put(rows, ups, n).contains_key(k),
    ensures
        ({
            let after = super::gc::rows_put(rows, ups, n);
            rows.contains_key(k) && after[k] == rows[k] || after[k].meta.undo_ptr is None
        }),
    decreases n,
{
    if n > 0 {
        assert(ups[n - 1].1.meta.undo_ptr is None);
        if ups[n - 1].0 != k {
            lemma_row_put(rows, ups, n - 1, k);
        }
    }
}

proof fn lemma_row_dropped(
    rows: Map<Seq<u8>, LeafRow>,
    ks: Seq<Seq<u8>>,
    n: int,
    k: Seq<u8>,
)
    requires
        0 <= n <= ks.len(),
    ensures
        super::gc::rows_dropped(rows, ks, n).contains_key(k) ==> rows.contains_key(k)
            && super::gc::rows_dropped(rows, ks, n)[k] == rows[k],
    decreases n,
{
    if n > 0 {
        lemma_row_dropped(rows, ks, n - 1, k);
    }
}

/// Pages that are written to both, the staged and the cached ones, agree after that.
pub proof fn lemma_undo_write_is_cached(
    t0: EmbeddedTxn,
    c0: EmbeddedCompute,
    t1: EmbeddedTxn,
    c1: EmbeddedCompute,
    plan: UndoPlan,
)
    requires
        staged_cached(&t0, &c0),
        undo_kept(t0, c0, t1, c1, plan),
    ensures
        staged_cached(&t1, &c1),
{
    lemma_written_agrees(
        page_views(t0.dirty@),
        c0.pages(),
        plan.writes,
        plan.writes.len() as int,
    );
}

proof fn lemma_written_agrees(
    d: Map<u64, Seq<u8>>,
    m: Map<u64, Seq<u8>>,
    ws: Seq<(u64, Seq<u8>)>,
    n: int,
)
    requires
        forall|x: u64| #[trigger] d.contains_key(x) ==> m.contains_key(x) && m[x] == d[x],
    ensures
        forall|x: u64| #[trigger]
            written(d, ws, n).contains_key(x) ==> written(m, ws, n).contains_key(x) && written(
                m,
                ws,
                n,
            )[x] == written(d, ws, n)[x],
    decreases n,
{
    if n > 0 {
        lemma_written_agrees(d, m, ws, n - 1);
        assert forall|x: u64| #[trigger] written(d, ws, n).contains_key(x) implies written(
            m,
            ws,
            n,
        ).contains_key(x) && written(m, ws, n)[x] == written(d, ws, n)[x] by {
            if x != ws[n - 1].0 {
                assert(written(d, ws, n - 1).contains_key(x));
            }
        }
    }
}

pub(crate) proof fn lemma_all_owned(rows: Map<Seq<u8>, LeafRow>, ks: Seq<Vec<u8>>, id: u64, i: int, j: int)
    requires
        0 <= i <= j < ks.len(),
        first_lost(rows, ks, id, i) >= ks.len(),
    ensures
        owned(rows, ks[j]@, id),
    decreases j - i,
{
    if i < j {
        lemma_all_owned(rows, ks, id, i + 1, j);
    }
}

/// Staging the last segment of the history changes no cached record.
proof fn lemma_tail_cached(t0: EmbeddedTxn, c0: EmbeddedCompute, free: Set<u64>)
    ensures
        keeps_records(c0.pages(), tail_cached(&t0, &c0), free),
        forall|x: u64| #[trigger]
            c0.pages().contains_key(x) ==> tail_cached(&t0, &c0).contains_key(x) && tail_cached(
                &t0,
                &c0,
            )[x] == c0.pages()[x],
{
    let m = c0.pages();
    let m2 = tail_cached(&t0, &c0);
    assert forall|x: u64| #[trigger] m.contains_key(x) implies m2.contains_key(x) && m2[x] == m[x] by {}
    assert forall|u: UndoPtr| #[trigger]
        undo_here(m, u) && undo_wf(m[u.page_id]) && !free.contains(u.page_id) implies undo_here(
        m2,
        u,
    ) && undo_wf(m2[u.page_id]) && undo_at(m2, u) == undo_at(m, u) by {
        assert(m2.contains_key(u.page_id) && m2[u.page_id] == m[u.page_id]);
    }
}

/// The meta page that a commit caches has the list of free undo pages that was cached.
proof fn lemma_commit_meta(
    t0: EmbeddedTxn,
    c0: EmbeddedCompute,
    t: EmbeddedTxn,
    c: EmbeddedCompute,
    plan: CommitPlan,
    after: EmbeddedCompute,
)
    requires
        c0.pages().contains_key(META_PAGE_ID),
        is_meta(c0.pages()[META_PAGE_ID]),
        free_list_ok(cached_meta(&c0)),
        staged_cached(&t0, &c0),
        plan_pages(plan, t, c, commit_meta_of(&t0, &c0)->0),
        after.pages() == put_all(c.pages(), plan.pages@, plan.pages@.len() as int),
    ensures
        after.pages().contains_key(META_PAGE_ID),
        is_meta(after.pages()[META_PAGE_ID]),
        free_list_ok(cached_meta(&after)),
        unused(cached_meta(&after)) == unused(cached_meta(&c0)),
{
    let meta = commit_meta_of(&t0, &c0)->0;
    assert(meta == cached_meta(&c0)) by {
        if page_views(t0.dirty@).contains_key(META_PAGE_ID) {
            assert(c0.pages()[META_PAGE_ID] == page_views(t0.dirty@)[META_PAGE_ID]);
        }
    }
    let m = choose|m: Map<u64, Seq<u8>>| #[trigger]
        pages_from(m, plan, t, c, meta) && staged_in(m, &t, &c);
    let (m2, meta2, mb) = choose|m2: Map<u64, Seq<u8>>, meta2: MetaFields, mb: Seq<u8>|
        linked(
            m,
            c.pages(),
            page_views(t.ro_cache@),
            t.undo,
            with_tree(meta, &c),
            plan.request_id,
            plan.start_lsn,
            plan.end_lsn,
        ) == Some((m2, meta2)) && #[trigger] is_meta_page(mb, meta2) && #[trigger] lists_pages(
            plan.pages@,
            m2.insert(META_PAGE_ID, mb),
        );
    let all = m2.insert(META_PAGE_ID, mb);
    let n = plan.pages@.len() as int;
    lemma_put_all(c.pages(), plan.pages@, n, all, META_PAGE_ID);
    assert(all.contains_key(META_PAGE_ID));
    let i = choose|i: int| 0 <= i < n && (#[trigger] plan.pages@[i]).0 == META_PAGE_ID;
    assert(plan.pages@[i].0 == META_PAGE_ID);
    assert(meta2.undo_free == meta.undo_free && meta2.next_undo_page_id == meta.next_undo_page_id);
    assert forall|i: int| 0 <= i < meta2.undo_free.len() implies #[trigger] meta2.undo_free[i]
        != 0 by {
        assert(meta.undo_free[i] >= UNDO_BASE);
    }
    law_meta_round_trip(mb, meta2);
    assert(unused(meta2) =~= unused(meta));
}

/// A commit leaves the engine sound, once its pages are cached. The transaction's staged
/// pages are cached as it staged them, and no tree page has the id of an undo page.
pub proof fn law_commit_keeps_sound(
    t0: EmbeddedTxn,
    c0: EmbeddedCompute,
    t: EmbeddedTxn,
    c: EmbeddedCompute,
    plan: CommitPlan,
    after: EmbeddedCompute,
    floor: u64,
)
    requires
        sound(&c0, floor),
        staged_cached(&t0, &c0),
        first_lost(c0.tree.rows(), t0.modified.keys@, t0.undo_txn_id->0, 0)
            >= t0.modified.keys@.len(),
        c.pages() == tail_cached(&t0, &c0),
        staged_but_tree(&t0, &c0, &t),
        all_stamped(c0.tree.rows(), c.tree.rows(), t0.modified@, plan.end_lsn, true),
        plan_pages(plan, t, c, commit_meta_of(&t0, &c0)->0),
        forall|x: u64| #[trigger] page_views(t.bptree_dirty@).contains_key(x) ==> x < UNDO_BASE,
        after.tree == c.tree,
        after.pages() == put_all(c.pages(), plan.pages@, plan.pages@.len() as int),
    ensures
        sound(&after, floor),
        keeps_records(c0.pages(), after.pages(), unused(cached_meta(&c0))),
{
    let free = unused(cached_meta(&c0));
    let meta = commit_meta_of(&t0, &c0)->0;
    let rows = c0.tree.rows();
    lemma_tail_cached(t0, c0, free);
    lemma_commit_meta(t0, c0, t, c, plan, after);
    assert forall|x: u64| #[trigger]
        page_views(t.dirty@).contains_key(x) && c.pages().contains_key(x) && !commit_taken(
            t,
        ).contains(x) implies c.pages()[x] == page_views(t.dirty@)[x] by {
        assert(!page_views(t.bptree_dirty@).contains_key(x));
        assert(tail_staged(&t0, &c0).contains_key(x));
        if page_views(t0.dirty@).contains_key(x) {
            assert(c0.pages().contains_key(x));
        }
    }
    law_commit_keeps_records(t, c, plan, meta, after, t);
    assert(commit_taken(t).subset_of(free)) by {
        assert forall|x: u64| commit_taken(t).contains(x) implies free.contains(x) by {
            if x != META_PAGE_ID {
                assert(page_views(t.bptree_dirty@).contains_key(x));
            }
        }
    }
    lemma_keeps_more(c.pages(), after.pages(), commit_taken(t), free);
    assert(keeps_records(c0.pages(), after.pages(), free)) by {
        assert forall|u: UndoPtr| #[trigger]
            undo_here(c0.pages(), u) && undo_wf(c0.pages()[u.page_id]) && !free.contains(
                u.page_id,
            ) implies undo_here(after.pages(), u) && undo_wf(after.pages()[u.page_id]) && undo_at(
            after.pages(),
            u,
        ) == undo_at(c0.pages(), u) by {
            assert(undo_here(c.pages(), u));
        }
    }
    assert forall|k: Seq<u8>| #[trigger] after.tree.rows().contains_key(k) implies (
    rows.contains_key(k) && rows[k] == after.tree.rows()[k]) || row_chained(
        after.pages(),
        after.tree.rows()[k],
        floor,
        free,
    ) by {
        assert(rows.dom().contains(k));
        assert(rows.contains_key(k));
        if t0.modified@.contains(k) {
            let ks = t0.modified.keys@;
            let j = choose|j: int| 0 <= j < ks.len() && #[trigger] ks[j]@ == k;
            lemma_all_owned(rows, ks, t0.undo_txn_id->0, 0, j);
            lemma_row_kept(c0.pages(), after.pages(), rows[k], floor, free, free);
        }
    }
    lemma_sound_after(c0, after, floor);
}

} // verus!
