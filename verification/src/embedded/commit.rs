//! Committing a transaction: its rows are stamped with the commit LSN, its undo
//! pages are linked into the history, and all pages that it wrote go out together.
use vstd::prelude::*;
use vstd::string::*;

use super::page_map::{find_page, list_pages, lists_pages, merge_pages, store_page};
use super::sequencer::Sequencer;
use super::txn::{intent_row, is_read_only_error, law_same_row_same_version, version_at,
    EmbeddedCompute, EmbeddedTxn, RowAt};
use super::undo::{UndoSegment, UNDO_BASE};
use super::inprocess::put_all;
use super::visibility::{committed_version, is_intent, is_tombstone,
    law_overwritten_version_is_found, law_same_records_same_version, lemma_version_none, row_seen,
    undo_at, undo_here, undo_version, walk_finite, Visibility, FLAG_INTENT};
use crate::common::{bytes_view, io_error, is_io_error, page_bytes, page_from_vec, Error,
    IoErrorKind, Page, PageId, Result, PAGE_SIZE, VALUE_SIZE};
use crate::key_set::{key_in, lemma_keys_distinct};
use crate::layout::copy_bytes;
use crate::meta_page::{is_meta, is_meta_page, meta_of, not_meta, MetaFields, MetaPage,
    META_PAGE_ID};
use crate::page_bptree::chain::MAX_SCAN_LEAF_HOPS;
use crate::page_bptree::node_page::{stored_undo_ptr, LeafRow, LeafValue, LeafValueMeta};
use crate::page_bptree::provider::AsyncPageProvider;
use crate::page_bptree::shape::{leaf_id, roomy, same_ways, well_shaped};
use crate::page_bptree::tree::{lemma_row_size, lemma_shallow};
use crate::page_bptree::tree_model::Tree;
use crate::key_order::be_num;
use crate::text::{dec, text_num2};
use crate::txn_page_provider::page_views;
use crate::undo_pg::{is_segment, law_segment_header_round_trip, not_segment, read_segment_header,
    segment_header_of, slot_readable, value_array, with_segment_header, write_segment_header,
    UndoPtr, UndoSegmentHeader, SEGMENT_STATE_COMMITTED};
use std::collections::BTreeMap;

verus! {

broadcast use vstd::std_specs::btree::group_btree_axioms;

/// The first root of the tree.
pub const BPTREE_ROOT_ID: PageId = 10;

/// Data pages have ids from here on.
pub const DATA_BASE: PageId = 1_000_000;

/// Most pages of one commit.
pub const MAX_COMMIT_PAGES: u64 = 0x4000_0000_0000_0000;

/// The pages of a transaction, under the LSNs that were reserved for them.
#[derive(Debug)]
pub struct CommitPlan {
    pub request_id: u64,
    pub start_lsn: u64,
    /// The commit LSN.
    pub end_lsn: u64,
    pub pages: Vec<(PageId, Page)>,
}

#[derive(Debug)]
pub enum CommitStep {
    /// Nothing is to be written; the transaction read at this LSN.
    Done(u64),
    /// The pages are to be made durable.
    Write(CommitPlan),
}

/// A row with another commit LSN; `clear` takes the intent away.
pub open spec fn stamped(row: LeafRow, lsn: u64, clear: bool) -> LeafRow {
    LeafRow {
        value: row.value,
        meta: if clear {
            LeafValueMeta {
                commit_lsn: lsn,
                undo_ptr: stored_undo_ptr(row.meta.undo_ptr),
                flags: row.meta.flags & !FLAG_INTENT,
                intent_txn_id: 0,
                intent_lsn: 0,
            }
        } else {
            LeafValueMeta {
                commit_lsn: lsn,
                undo_ptr: stored_undo_ptr(row.meta.undo_ptr),
                ..row.meta
            }
        },
    }
}

/// The rows of the keys in `ks` are stamped, the others are as they were.
pub open spec fn all_stamped(
    before: Map<Seq<u8>, LeafRow>,
    after: Map<Seq<u8>, LeafRow>,
    ks: Set<Seq<u8>>,
    lsn: u64,
    clear: bool,
) -> bool {
    &&& after.dom() == before.dom()
    &&& forall|k: Seq<u8>| #[trigger]
        before.contains_key(k) ==> after[k] == (if ks.contains(k) {
            stamped(before[k], lsn, clear)
        } else {
            before[k]
        })
}

/// All rows but those of the keys in `ks` are as they were.
pub open spec fn others_stay(
    before: Map<Seq<u8>, LeafRow>,
    after: Map<Seq<u8>, LeafRow>,
    ks: Set<Seq<u8>>,
) -> bool {
    forall|k: Seq<u8>|
        !ks.contains(k) ==> {
            &&& #[trigger] after.contains_key(k) == before.contains_key(k)
            &&& before.contains_key(k) ==> after[k] == before[k]
        }
}

/// The row is an intent of the transaction.
pub open spec fn owned(rows: Map<Seq<u8>, LeafRow>, k: Seq<u8>, id: u64) -> bool {
    rows.contains_key(k) && is_intent(rows[k].meta.flags) && rows[k].meta.intent_txn_id == id
}

/// The first of the keys from `i` on whose row is no intent of the transaction.
pub open spec fn first_lost(
    rows: Map<Seq<u8>, LeafRow>,
    ks: Seq<Vec<u8>>,
    id: u64,
    i: int,
) -> int
    decreases ks.len() - i,
{
    if i >= ks.len() || !owned(rows, ks[i]@, id) {
        i
    } else {
        first_lost(rows, ks, id, i + 1)
    }
}

/// The error of a commit that finds the row of `k` no longer its own.
pub open spec fn lost_error<T>(rows: Map<Seq<u8>, LeafRow>, k: Seq<u8>, r: Result<T>) -> bool {
    let text = if rows.contains_key(k) {
        "intent ownership changed before commit"@
    } else {
        "intent missing before commit"@
    };
    r matches Err(e) && is_io_error(e, IoErrorKind::WouldBlock, text)
}

/// Keys of the first `n` places.
pub open spec fn keys_until(ks: Seq<Vec<u8>>, n: int) -> Set<Seq<u8>> {
    Set::new(|k: Seq<u8>| exists|j: int| 0 <= j < n && #[trigger] ks[j]@ == k)
}

/// The tree has page ids left for `n` more inserts, each of which may split every
/// page on its way down.
pub open spec fn can_take(c: &EmbeddedCompute, n: int) -> bool {
    &&& c.tree.provider.next_id() + n * (c.tree.depth() + n + 3) <= u64::MAX
    &&& c.tree.len + n <= u64::MAX
}

/// The tree has page ids left for stamping `n` rows twice.
pub open spec fn can_stamp(c: &EmbeddedCompute, n: int) -> bool {
    can_take(c, 2 * n)
}

impl EmbeddedCompute {
    /// Whether the tree has page ids left for `n` more inserts, and lookups reach
    /// its leaves.
    pub fn room_for(&self, n: usize) -> (r: bool)
        requires
            self.wf(),
            n <= 0x7fff_ffff,
        ensures
            r == (self.tree.depth() < MAX_SCAN_LEAF_HOPS && can_take(self, n as int)),
    {
        let depth: u128 = match self.tree.levels() {
            Some(d) => d as u128,
            None => {
                return false;
            },
        };
        let k: u128 = n as u128;
        assert(k * (depth + k + 3) <= 0x7fff_ffff * (0x7fff_ffff + 8195)) by (nonlinear_arith)
            requires
                k <= 0x7fff_ffff,
                depth <= 8192,
        ;
        let next: u128 = self.tree.provider.next_page_id() as u128;
        next + k * (depth + k + 3) <= u64::MAX as u128 && self.tree.len as u128 + k
            <= u64::MAX as u128
    }
}

/// Page ids that are left after `i` of `n` inserts.
pub proof fn lemma_ids_left(n0: int, d0: int, n: int, i: int, next: int, d: int)
    requires
        0 <= i < n,
        0 <= d0,
        d <= d0 + i,
        next <= n0 + i * (d0 + n + 3),
        n0 + n * (d0 + n + 3) <= u64::MAX,
    ensures
        next <= n0 + n * (d0 + n + 3),
        next + d + 3 <= n0 + (i + 1) * (d0 + n + 3),
        next + d + 3 <= u64::MAX,
{
    assert(i * (d0 + n + 3) + (d0 + n + 3) == (i + 1) * (d0 + n + 3) && (i + 1) * (d0 + n + 3) <= n
        * (d0 + n + 3)) by (nonlinear_arith)
        requires
            0 <= i < n,
            0 <= d0,
    ;
}

/// Page ids that are left for the second stamping after the first.
proof fn lemma_second_stamping(n0: int, d0: int, n: int, next: int, d: int)
    requires
        0 <= n,
        0 <= d0,
        0 <= d <= d0 + n,
        next <= n0 + n * (d0 + n + 3),
        n0 + (2 * n) * (d0 + 2 * n + 3) <= u64::MAX,
    ensures
        n0 + n * (d0 + n + 3) <= u64::MAX,
        next + n * (d + n + 3) <= u64::MAX,
{
    assert(n * (d + n + 3) <= n * (d0 + 2 * n + 3) && n * (d0 + n + 3) <= n * (d0 + 2 * n + 3) && (2
        * n) * (d0 + 2 * n + 3) == n * (d0 + 2 * n + 3) + n * (d0 + 2 * n + 3) && n * (d0 + 2 * n
        + 3) >= 0) by (nonlinear_arith)
        requires
            0 <= n,
            0 <= d0,
            0 <= d <= d0 + n,
    ;
}

/// Every page on the way to each of the keys has room.
pub open spec fn all_roomy(t: Tree, ks: Seq<Vec<u8>>) -> bool {
    forall|j: int| 0 <= j < ks.len() ==> roomy(t, be_num(#[trigger] ks[j]@))
}

/// The leaves of the first `n` keys.
pub open spec fn leaves_until(t: Tree, ks: Seq<Vec<u8>>, n: int) -> Set<u64> {
    Set::new(|x: u64| exists|j: int| 0 <= j < n && leaf_id(t, be_num(#[trigger] ks[j]@)) == x)
}

/// The leaves of the keys.
pub open spec fn leaves_for(t: Tree, ks: Seq<Vec<u8>>) -> Set<u64> {
    leaves_until(t, ks, ks.len() as int)
}

proof fn lemma_leaves_step(t: Tree, ks: Seq<Vec<u8>>, i: int)
    requires
        0 <= i < ks.len(),
    ensures
        leaves_until(t, ks, i + 1) == leaves_until(t, ks, i).insert(leaf_id(t, be_num(ks[i]@))),
{
    let a = leaves_until(t, ks, i + 1);
    let b = leaves_until(t, ks, i).insert(leaf_id(t, be_num(ks[i]@)));
    assert forall|x: u64| a.contains(x) <==> b.contains(x) by {
        if a.contains(x) {
            let j = choose|j: int| 0 <= j < i + 1 && leaf_id(t, be_num(#[trigger] ks[j]@)) == x;
            if j < i {
                assert(ks[j]@ == ks[j]@);
            }
        }
        if leaves_until(t, ks, i).contains(x) {
            let j = choose|j: int| 0 <= j < i && leaf_id(t, be_num(#[trigger] ks[j]@)) == x;
            assert(j < i + 1);
        }
    }
    assert(a =~= b);
}

/// Trees with the same ways have the same leaves for the keys.
proof fn lemma_same_leaves(t: Tree, t2: Tree, ks: Seq<Vec<u8>>)
    requires
        same_ways(t, t2),
    ensures
        leaves_for(t2, ks) == leaves_for(t, ks),
        all_roomy(t, ks) ==> all_roomy(t2, ks),
{
    assert forall|x: u64| leaves_for(t2, ks).contains(x) <==> leaves_for(t, ks).contains(x) by {
        if leaves_for(t2, ks).contains(x) {
            let j = choose|j: int|
                0 <= j < ks.len() && leaf_id(t2, be_num(#[trigger] ks[j]@)) == x;
            assert(leaf_id(t, be_num(ks[j]@)) == x);
        }
        if leaves_for(t, ks).contains(x) {
            let j = choose|j: int| 0 <= j < ks.len() && leaf_id(t, be_num(#[trigger] ks[j]@)) == x;
            assert(leaf_id(t2, be_num(ks[j]@)) == x);
        }
    }
    assert(leaves_for(t2, ks) =~= leaves_for(t, ks));
    if all_roomy(t, ks) {
        assert forall|j: int| 0 <= j < ks.len() implies roomy(t2, be_num(#[trigger] ks[j]@)) by {
            assert(roomy(t, be_num(ks[j]@)));
        }
    }
}

impl EmbeddedTxn {
    /// Stamps the rows that the transaction wrote.
    #[verifier::spinoff_prover]
    fn stamp(
        &mut self,
        compute: &mut EmbeddedCompute,
        request_id: u64,
        lsn: u64,
        clear: bool,
    ) -> (r: Result<()>)
        requires
            old(self).wf(),
            old(compute).wf(),
            can_take(old(compute), old(self).modified.keys@.len() as int),
        ensures
            forall|base: Map<PageId, Seq<u8>>| #[trigger]
                old(self).covers(old(compute), base) ==> final(self).covers(final(compute), base),
            final(compute).wf(),
            final(compute).same_but_tree(old(compute)),
            final(self).same_but_tree_dirty(old(self)),
            page_views(old(self).bptree_dirty@).dom().subset_of(
                page_views(final(self).bptree_dirty@).dom(),
            ),
            final(compute).tree.depth() <= old(compute).tree.depth()
                + old(self).modified.keys@.len(),
            final(compute).tree.provider.next_id() <= old(compute).tree.provider.next_id()
                + old(self).modified.keys@.len() * (old(compute).tree.depth() + old(
                self,
            ).modified.keys@.len() + 3),
            final(compute).tree.len <= old(compute).tree.len + old(self).modified.keys@.len(),
            well_shaped(old(compute).tree.tree()) ==> well_shaped(final(compute).tree.tree()),
            others_stay(
                old(compute).tree.rows(),
                final(compute).tree.rows(),
                old(self).modified@,
            ),
            r is Ok && all_roomy(old(compute).tree.tree(), old(self).modified.keys@) ==> {
                let t = old(compute).tree.tree();
                &&& same_ways(t, final(compute).tree.tree())
                &&& page_views(final(self).bptree_dirty@).dom() == page_views(
                    old(self).bptree_dirty@,
                ).dom().union(leaves_for(t, old(self).modified.keys@))
            },
            old(compute).tree.shallow_for(old(self).modified.keys@.len() as int) ==> ({
                let rows = old(compute).tree.rows();
                let ks = old(self).modified.keys@;
                let i = first_lost(rows, ks, request_id, 0);
                if i >= ks.len() {
                    &&& r is Ok
                    &&& all_stamped(
                        rows,
                        final(compute).tree.rows(),
                        old(self).modified@,
                        lsn,
                        clear,
                    )
                } else {
                    &&& lost_error(rows, ks[i]@, r)
                    &&& all_stamped(
                        rows,
                        final(compute).tree.rows(),
                        keys_until(ks, i),
                        lsn,
                        clear,
                    )
                }
            }),
    {
        let ghost rows0 = compute.tree.rows();
        let ghost ks = self.modified.keys@;
        let ghost d0 = compute.tree.depth();
        let ghost n0 = compute.tree.provider.next_id();
        let ghost l0 = compute.tree.len;
        let ghost t0 = compute.tree.tree();
        let ghost dom0 = page_views(self.bptree_dirty@).dom();
        let ghost shallow = compute.tree.shallow_for(self.modified.keys@.len() as int);
        let n: usize = self.modified.keys.len();
        let mut i: usize = 0;
        proof {
            lemma_keys_distinct(ks);
            assert(keys_until(ks, 0) =~= Set::empty());
            assert(leaves_until(t0, ks, 0) =~= Set::empty());
            assert(dom0.union(leaves_until(t0, ks, 0)) =~= dom0);
        }
        while i < n
            invariant
                forall|base: Map<PageId, Seq<u8>>| #[trigger]
                    old(self).covers(old(compute), base) ==> self.covers(compute, base),
                self.same_but_tree_dirty(old(self)),
                self.wf(),
                ks == self.modified.keys@,
                ks == old(self).modified.keys@,
                n == ks.len(),
                i <= n,
                compute.wf(),
                compute.same_but_tree(old(compute)),
                rows0 == old(compute).tree.rows(),
                d0 == old(compute).tree.depth(),
                n0 == old(compute).tree.provider.next_id(),
                l0 == old(compute).tree.len,
                n0 + n * (d0 + n + 3) <= u64::MAX,
                l0 + n <= u64::MAX,
                compute.tree.depth() <= d0 + i,
                compute.tree.provider.next_id() <= n0 + i * (d0 + n + 3),
                compute.tree.len <= l0 + i,
                t0 == old(compute).tree.tree(),
                shallow == old(compute).tree.shallow_for(n as int),
                dom0 == page_views(old(self).bptree_dirty@).dom(),
                dom0.subset_of(page_views(self.bptree_dirty@).dom()),
                well_shaped(t0) ==> well_shaped(compute.tree.tree()),
                others_stay(rows0, compute.tree.rows(), self.modified@),
                shallow ==> compute.tree.shallow_for(n - i),
                all_roomy(t0, ks) ==> same_ways(t0, compute.tree.tree()) && page_views(
                    self.bptree_dirty@,
                ).dom() == dom0.union(leaves_until(t0, ks, i as int)),
                forall|a: int, b: int|
                    0 <= a < ks.len() && 0 <= b < ks.len() && a != b ==> #[trigger] ks[a]@
                        != #[trigger] ks[b]@,
                shallow ==> first_lost(rows0, ks, request_id, 0) == first_lost(
                    rows0,
                    ks,
                    request_id,
                    i as int,
                ) && all_stamped(
                    rows0,
                    compute.tree.rows(),
                    keys_until(ks, i as int),
                    lsn,
                    clear,
                ),
            decreases n - i,
        {
            let key = copy_bytes(self.modified.keys[i].as_slice());
            let ghost k = ks[i as int]@;
            let ghost mid = compute.tree.rows();
            proof {
                assert(key_in(ks, k));
                assert(self.modified@.contains(k));
                assert(!keys_until(ks, i as int).contains(k));
                if shallow {
                    lemma_shallow(&compute.tree, n - i);
                }
                lemma_ids_left(
                    n0,
                    d0 as int,
                    n as int,
                    i as int,
                    compute.tree.provider.next_id(),
                    compute.tree.depth() as int,
                );
                lemma_leaves_step(t0, ks, i as int);
                if all_roomy(t0, ks) {
                    assert(roomy(t0, be_num(ks[i as int]@)));
                    assert(leaf_id(compute.tree.tree(), be_num(k)) == leaf_id(t0, be_num(k)));
                }
            }
            let row = match compute.tree.get(key.as_slice()) {
                Some(row) => row,
                None => {
                    return Err(io_error(IoErrorKind::WouldBlock, "intent missing before commit"));
                },
            };
            proof {
                lemma_row_size(&compute.tree, k);
            }
            if (row.meta.flags & FLAG_INTENT) == 0 || row.meta.intent_txn_id != request_id {
                return Err(
                    io_error(IoErrorKind::WouldBlock, "intent ownership changed before commit"),
                );
            }
            let new_row = if clear {
                LeafValue {
                    value: value_array(page_bytes(&row.value), 0),
                    commit_lsn: lsn,
                    undo_ptr: row.meta.undo_ptr,
                    flags: row.meta.flags & !FLAG_INTENT,
                    intent_txn_id: 0,
                    intent_lsn: 0,
                }
            } else {
                LeafValue {
                    value: value_array(page_bytes(&row.value), 0),
                    commit_lsn: lsn,
                    undo_ptr: row.meta.undo_ptr,
                    flags: row.meta.flags,
                    intent_txn_id: row.meta.intent_txn_id,
                    intent_lsn: row.meta.intent_lsn,
                }
            };
            let ghost nr = new_row.row();
            proof {
                assert(bytes_view(row.value).subrange(0, VALUE_SIZE as int) =~= bytes_view(
                    row.value,
                ));
                assert(nr == stamped(row.row(), lsn, clear));
            }
            match self.tree_insert(compute, key.as_slice(), new_row) {
                Ok(()) => {},
                Err(e) => {
                    return Err(e);
                },
            }
            proof {
                if all_roomy(t0, ks) {
                    assert(same_ways(t0, compute.tree.tree()));
                    assert(dom0.union(leaves_until(t0, ks, i + 1)) =~= dom0.union(
                        leaves_until(t0, ks, i as int),
                    ).insert(leaf_id(t0, be_num(k))));
                }
                if shallow {
                    let after = compute.tree.rows();
                    let done = keys_until(ks, i + 1);
                    assert(rows0.contains_key(k));
                    assert(owned(rows0, k, request_id));
                    assert(after.dom() =~= rows0.dom());
                    assert forall|x: Seq<u8>| #[trigger] rows0.contains_key(x) implies after[x]
                        == (if done.contains(x) {
                        stamped(rows0[x], lsn, clear)
                    } else {
                        rows0[x]
                    }) by {
                        if x == k {
                            assert(ks[i as int]@ == x);
                            assert(done.contains(x));
                        } else {
                            assert(after[x] == mid[x]);
                            if done.contains(x) {
                                let j = choose|j: int| 0 <= j < i + 1 && #[trigger] ks[j]@ == x;
                                assert(j < i);
                                assert(keys_until(ks, i as int).contains(x));
                            } else if keys_until(ks, i as int).contains(x) {
                                let j = choose|j: int|
                                    0 <= j < i as int && #[trigger] ks[j]@ == x;
                                assert(j < i + 1);
                            }
                        }
                    }
                }
            }
            i += 1;
        }
        proof {
            assert(keys_until(ks, n as int) =~= self.modified@) by {
                assert forall|x: Seq<u8>| keys_until(ks, n as int).contains(x)
                    <==> self.modified@.contains(x) by {
                    if self.modified@.contains(x) {
                        let j = choose|j: int| 0 <= j < ks.len() && #[trigger] ks[j]@ == x;
                        assert(ks[j]@ == x);
                    }
                }
            }
        }
        Ok(())
    }
}

/// The bytes of the meta page that a commit starts from, if there is one.
pub open spec fn commit_meta_page(t: &EmbeddedTxn, c: &EmbeddedCompute) -> Option<Seq<u8>> {
    let d = page_views(t.dirty@);
    if d.contains_key(META_PAGE_ID) {
        Some(d[META_PAGE_ID])
    } else if c.pages().contains_key(META_PAGE_ID) {
        Some(c.pages()[META_PAGE_ID])
    } else {
        None
    }
}

/// The meta page that a commit starts from, `None` when it cannot be decoded.
pub open spec fn commit_meta_of(t: &EmbeddedTxn, c: &EmbeddedCompute) -> Option<MetaFields> {
    match commit_meta_page(t, c) {
        Some(mb) => if is_meta(mb) {
            Some(meta_of(mb))
        } else {
            None
        },
        None => Some(
            MetaFields {
                root_page_id: BPTREE_ROOT_ID,
                next_bptree_page_id: c.tree.provider.next_page_id,
                next_data_page_id: DATA_BASE,
                next_undo_page_id: UNDO_BASE,
                undo_free: seq![],
                undo_history_head: 0,
                undo_history_tail: 0,
            },
        ),
    }
}

fn commit_meta(t: &EmbeddedTxn, c: &EmbeddedCompute) -> (r: Result<MetaPage>)
    ensures
        match commit_meta_of(t, c) {
            Some(m) => r matches Ok(x) && x@ == m,
            None => not_meta(commit_meta_page(t, c)->0, r),
        },
{
    match find_page(&t.dirty, META_PAGE_ID) {
        Some(p) => {
            return MetaPage::decode(page_bytes(&p));
        },
        None => {},
    }
    match find_page(&c.page_cache, META_PAGE_ID) {
        Some(p) => {
            return MetaPage::decode(page_bytes(&p));
        },
        None => {},
    }
    let m = MetaPage {
        root_page_id: BPTREE_ROOT_ID,
        next_bptree_page_id: c.tree.provider.next_page_id(),
        next_data_page_id: DATA_BASE,
        next_undo_page_id: UNDO_BASE,
        undo_free: Vec::new(),
        undo_history_head: 0,
        undo_history_tail: 0,
    };
    assert(m@ =~= commit_meta_of(t, c)->0);
    Ok(m)
}

/// A page of the first map that has it.
pub open spec fn first_of(
    a: Map<u64, Seq<u8>>,
    b: Map<u64, Seq<u8>>,
    c: Map<u64, Seq<u8>>,
    id: u64,
) -> Option<Seq<u8>> {
    if a.contains_key(id) {
        Some(a[id])
    } else if b.contains_key(id) {
        Some(b[id])
    } else if c.contains_key(id) {
        Some(c[id])
    } else {
        None
    }
}

fn find_first(
    a: &BTreeMap<u64, Page>,
    b: &BTreeMap<u64, Page>,
    c: &BTreeMap<u64, Page>,
    id: PageId,
) -> (r: Option<Page>)
    ensures
        match r {
            Some(p) => first_of(page_views(a@), page_views(b@), page_views(c@), id) == Some(
                bytes_view(p),
            ),
            None => first_of(page_views(a@), page_views(b@), page_views(c@), id) is None,
        },
{
    match find_page(a, id) {
        Some(p) => {
            return Some(p);
        },
        None => {},
    }
    match find_page(b, id) {
        Some(p) => {
            return Some(p);
        },
        None => {},
    }
    find_page(c, id)
}

/// The header of a committed undo segment.
pub open spec fn committed_header(
    seg: UndoSegment,
    request_id: u64,
    start_lsn: u64,
    end_lsn: u64,
    old_tail: u64,
) -> UndoSegmentHeader {
    UndoSegmentHeader {
        txn_id: request_id,
        begin_lsn: start_lsn,
        commit_lsn: end_lsn,
        state: SEGMENT_STATE_COMMITTED,
        first_page_id: seg.first_page_id->0,
        last_page_id: match seg.last_page_id {
            Some(p) => p,
            None => seg.first_page_id->0,
        },
        record_count: seg.record_count,
        history_prev: old_tail,
        history_next: 0,
    }
}

/// The pages `m` and the meta page after the segment was put at the end of the
/// history, `None` when a page is missing or is no first page of a segment.
pub open spec fn linked(
    m: Map<u64, Seq<u8>>,
    cache: Map<u64, Seq<u8>>,
    ro: Map<u64, Seq<u8>>,
    seg: UndoSegment,
    meta: MetaFields,
    request_id: u64,
    start_lsn: u64,
    end_lsn: u64,
) -> Option<(Map<u64, Seq<u8>>, MetaFields)> {
    match seg.first_page_id {
        None => Some((m, meta)),
        Some(first) => match first_of(m, cache, Map::empty(), first) {
            None => None,
            Some(head) => if !is_segment(head) {
                None
            } else {
                let tail_id = meta.undo_history_tail;
                let hdr = committed_header(seg, request_id, start_lsn, end_lsn, tail_id);
                let m1 = m.insert(first, with_segment_header(head, hdr));
                if tail_id != 0 {
                    match first_of(m1, cache, ro, tail_id) {
                        None => None,
                        Some(tail) => if !is_segment(tail) {
                            None
                        } else {
                            let th = UndoSegmentHeader {
                                history_next: first,
                                ..segment_header_of(tail)
                            };
                            Some(
                                (
                                    m1.insert(tail_id, with_segment_header(tail, th)),
                                    MetaFields { undo_history_tail: first, ..meta },
                                ),
                            )
                        },
                    }
                } else {
                    Some(
                        (
                            m1,
                            MetaFields {
                                undo_history_head: first,
                                undo_history_tail: first,
                                ..meta
                            },
                        ),
                    )
                }
            },
        },
    }
}

/// The error of linking the segment where `linked` is `None`.
pub open spec fn link_error<T>(
    m: Map<u64, Seq<u8>>,
    cache: Map<u64, Seq<u8>>,
    ro: Map<u64, Seq<u8>>,
    seg: UndoSegment,
    tail_id: u64,
    r: Result<T>,
) -> bool {
    let first = seg.first_page_id->0;
    match first_of(m, cache, Map::empty(), first) {
        None => r matches Err(Error::InMemoryPageMissing(x)) && x == first,
        Some(head) => if !is_segment(head) {
            not_segment(head, r)
        } else {
            match first_of(m, cache, ro, tail_id) {
                None => r matches Err(Error::InMemoryPageMissing(x)) && x == tail_id,
                Some(tail) => not_segment(tail, r),
            }
        },
    }
}

/// Puts the transaction's undo segment at the end of the history.
fn link_segment(
    map: &mut BTreeMap<u64, Page>,
    compute: &EmbeddedCompute,
    txn: &EmbeddedTxn,
    meta: &mut MetaPage,
    request_id: u64,
    start_lsn: u64,
    end_lsn: u64,
) -> (r: Result<()>)
    ensures
        match linked(
            page_views(old(map)@),
            compute.pages(),
            page_views(txn.ro_cache@),
            txn.undo,
            old(meta)@,
            request_id,
            start_lsn,
            end_lsn,
        ) {
            Some((m1, meta1)) => r is Ok && page_views(final(map)@) == m1 && final(meta)@ == meta1,
            None => link_error(
                page_views(old(map)@),
                compute.pages(),
                page_views(txn.ro_cache@),
                txn.undo,
                old(meta)@.undo_history_tail,
                r,
            ),
        },
{
    let first: PageId = match txn.undo.first_page_id {
        Some(p) => p,
        None => {
            return Ok(());
        },
    };
    let none: BTreeMap<u64, Page> = BTreeMap::new();
    assert(page_views(none@) =~= Map::empty());
    let head = match find_first(map, &compute.page_cache, &none, first) {
        Some(p) => p,
        None => {
            return Err(Error::InMemoryPageMissing(first));
        },
    };
    let last: PageId = match txn.undo.last_page_id {
        Some(p) => p,
        None => first,
    };
    let old_tail: PageId = meta.undo_history_tail;
    let mut head_buf: Vec<u8> = copy_bytes(page_bytes(&head));
    let hdr = UndoSegmentHeader {
        txn_id: request_id,
        begin_lsn: start_lsn,
        commit_lsn: end_lsn,
        state: SEGMENT_STATE_COMMITTED,
        first_page_id: first,
        last_page_id: last,
        record_count: txn.undo.record_count,
        history_prev: old_tail,
        history_next: 0,
    };
    match write_segment_header(&mut head_buf, hdr) {
        Ok(()) => {},
        Err(e) => {
            return Err(e);
        },
    }
    store_page(map, first, page_from_vec(head_buf));
    proof {
        law_segment_header_round_trip(bytes_view(head), hdr);
    }
    if old_tail != 0 {
        let tail = match find_first(map, &compute.page_cache, &txn.ro_cache, old_tail) {
            Some(p) => p,
            None => {
                return Err(Error::InMemoryPageMissing(old_tail));
            },
        };
        let mut tail_buf: Vec<u8> = copy_bytes(page_bytes(&tail));
        let mut tail_hdr = match read_segment_header(tail_buf.as_slice()) {
            Ok(h) => h,
            Err(e) => {
                return Err(e);
            },
        };
        tail_hdr.history_next = first;
        match write_segment_header(&mut tail_buf, tail_hdr) {
            Ok(()) => {},
            Err(e) => {
                return Err(e);
            },
        }
        store_page(map, old_tail, page_from_vec(tail_buf));
    } else {
        meta.undo_history_head = first;
    }
    meta.undo_history_tail = first;
    Ok(())
}

/// A read-only transaction that tried to write.
pub open spec fn wrote(t: &EmbeddedTxn) -> bool {
    t.write_attempted || t.dirty@.len() > 0 || t.bptree_dirty@.len() > 0 || t.modified.keys@.len()
        > 0
}

/// The meta page with the tree's root and next page id.
pub open spec fn with_tree(m: MetaFields, c: &EmbeddedCompute) -> MetaFields {
    MetaFields {
        root_page_id: c.tree.provider.root(),
        next_bptree_page_id: c.tree.provider.next_page_id,
        ..m
    }
}

fn set_tree(m: &mut MetaPage, c: &EmbeddedCompute)
    ensures
        final(m)@ == with_tree(old(m)@, c),
{
    m.root_page_id = c.tree.root_page_id();
    m.next_bptree_page_id = c.tree.provider.next_page_id();
}

/// The ids of the pages that a commit has LSNs reserved for: all staged pages, the
/// first page of the undo segment and the meta page.
pub open spec fn staged_ids(t: &EmbeddedTxn) -> Set<u64> {
    match t.undo.first_page_id {
        Some(first) => t.dirty@.dom().insert(first).insert(META_PAGE_ID),
        None => t.dirty@.dom().insert(META_PAGE_ID),
    }
}

/// The page is the first page of an undo segment.
pub open spec fn segment_at(t: &EmbeddedTxn, c: &EmbeddedCompute, id: u64) -> bool {
    first_of(page_views(t.dirty@), c.pages(), page_views(t.ro_cache@), id) matches Some(b)
        && is_segment(b)
}

/// The page is an undo page that no tree page took the place of.
pub open spec fn undo_page_kept(t: &EmbeddedTxn, c: &EmbeddedCompute, id: u64) -> bool {
    id != META_PAGE_ID && segment_at(t, c, id) && !t.bptree_dirty@.contains_key(id)
}

/// The undo segment, if there is one, can be put behind the history's last one.
pub open spec fn can_link(t: &EmbeddedTxn, c: &EmbeddedCompute, tail: u64) -> bool {
    t.undo.first_page_id matches Some(first) ==> {
        &&& undo_page_kept(t, c, first)
        &&& tail != 0 ==> tail != first && undo_page_kept(t, c, tail)
    }
}

/// The last segment of the history is at hand, if the transaction has undo records.
pub open spec fn tail_at_hand(t: &EmbeddedTxn, c: &EmbeddedCompute) -> bool {
    let tail = commit_meta_of(t, c)->0.undo_history_tail;
    t.undo.first_page_id is Some && tail != 0 ==> page_at_hand(t, c, tail)
}

/// The page is at hand.
pub open spec fn page_at_hand(t: &EmbeddedTxn, c: &EmbeddedCompute, id: u64) -> bool {
    first_of(page_views(t.dirty@), c.pages(), page_views(t.ro_cache@), id) is Some
}

/// The pages that the transaction staged, and the last segment of the history,
/// which is to be linked to the transaction's segment.
pub open spec fn tail_staged(t: &EmbeddedTxn, c: &EmbeddedCompute) -> Map<u64, Seq<u8>> {
    let d = page_views(t.dirty@);
    let tail = commit_meta_of(t, c)->0.undo_history_tail;
    if t.undo.first_page_id is None || tail == 0 || d.contains_key(tail) {
        d
    } else {
        d.insert(tail, first_of(Map::empty(), c.pages(), page_views(t.ro_cache@), tail)->0)
    }
}

/// The cached pages, with the last segment of the history.
pub open spec fn tail_cached(t: &EmbeddedTxn, c: &EmbeddedCompute) -> Map<u64, Seq<u8>> {
    let d = page_views(t.dirty@);
    let tail = commit_meta_of(t, c)->0.undo_history_tail;
    if t.undo.first_page_id is None || tail == 0 || d.contains_key(tail) {
        c.pages()
    } else {
        c.pages().insert(
            tail,
            first_of(Map::empty(), c.pages(), page_views(t.ro_cache@), tail)->0,
        )
    }
}

/// The tree pages that a commit touches if no page has to be split.
pub open spec fn tree_ids(t: &EmbeddedTxn, c: &EmbeddedCompute) -> Set<u64> {
    page_views(t.bptree_dirty@).dom().union(leaves_for(c.tree.tree(), t.modified.keys@))
}

/// The pages that a commit writes if no page has to be split.
pub open spec fn commit_ids(t: &EmbeddedTxn, c: &EmbeddedCompute) -> Set<u64> {
    let ids = tail_staged(t, c).dom().union(tree_ids(t, c)).insert(META_PAGE_ID);
    match t.undo.first_page_id {
        Some(first) => ids.insert(first),
        None => ids,
    }
}

/// A commit that is sure to succeed: each row that was written is still the
/// transaction's intent, no page on the way to one is full, the undo segment can be
/// linked into the history, and the sequencer grants the LSNs.
pub open spec fn commits(t: &EmbeddedTxn, c: &EmbeddedCompute, seq: &Sequencer) -> bool {
    let ks = t.modified.keys@;
    let id = t.undo_txn_id->0;
    let ids = tree_ids(t, c);
    let tail = commit_meta_of(t, c)->0.undo_history_tail;
    &&& c.tree.shallow_for(2 * ks.len() as int)
    &&& commit_meta_of(t, c) is Some
    &&& first_lost(c.tree.rows(), ks, id, 0) >= ks.len()
    &&& all_roomy(c.tree.tree(), ks)
    &&& t.undo.first_page_id matches Some(first) ==> {
        &&& first != META_PAGE_ID && segment_at(t, c, first) && !ids.contains(first)
        &&& tail != 0 ==> tail != first && tail != META_PAGE_ID && segment_at(t, c, tail)
            && !ids.contains(tail)
    }
    &&& seq.grants(commit_ids(t, c).len() as int, id)
    &&& commit_ids(t, c).len() <= MAX_COMMIT_PAGES
}

/// The first page of the transaction's undo segment is missing; `t1` is the
/// transaction after its rows were stamped.
pub open spec fn first_missing(t: &EmbeddedTxn, c: &EmbeddedCompute, t1: &EmbeddedTxn) -> bool {
    t.undo.first_page_id matches Some(first) && !page_at_hand(t, c, first) && !page_views(
        t1.bptree_dirty@,
    ).contains_key(first)
}

/// But for tree pages, the staged pages are those of `tail_staged`.
pub open spec fn staged_but_tree(t0: &EmbeddedTxn, c0: &EmbeddedCompute, t: &EmbeddedTxn) -> bool {
    let d0 = tail_staged(t0, c0);
    let d = page_views(t.dirty@);
    forall|id: u64|
        !page_views(t.bptree_dirty@).contains_key(id) ==> {
            &&& #[trigger] d.contains_key(id) == d0.contains_key(id)
            &&& d0.contains_key(id) ==> d[id] == d0[id]
        }
}

/// The outcome `r` of a commit whose rows are stamped with the commit LSN and whose
/// pages are those of `m`: the undo segment is linked into the history, and the
/// pages are as many as LSNs were reserved.
pub open spec fn linked_outcome<T>(
    m: Map<u64, Seq<u8>>,
    t: &EmbeddedTxn,
    c: &EmbeddedCompute,
    base: MetaFields,
    start_lsn: u64,
    reserved: int,
    r: Result<T>,
) -> bool {
    let ro = page_views(t.ro_cache@);
    let id = t.undo_txn_id->0;
    let end = (start_lsn + reserved) as u64;
    match linked(m, c.pages(), ro, t.undo, with_tree(base, c), id, start_lsn, end) {
        None => link_error(m, c.pages(), ro, t.undo, base.undo_history_tail, r),
        Some((m2, _)) => {
            let count = m2.dom().insert(META_PAGE_ID).len();
            if count == reserved {
                r is Ok
            } else {
                r matches Err(e) && is_io_error(
                    e,
                    IoErrorKind::Other,
                    mismatch_text(reserved, count as int),
                )
            }
        },
    }
}

/// The pages `m`, with the tree pages that the transaction wrote since.
pub open spec fn with_tree_pages(m: Map<u64, Seq<u8>>, t: &EmbeddedTxn) -> Map<u64, Seq<u8>> {
    if t.modified.keys@.len() == 0 {
        m
    } else {
        m.union_prefer_right(page_views(t.bptree_dirty@))
    }
}

/// `m` has just the pages that the transaction staged and the first page of its undo
/// segment, with the tree pages that it wrote as they were written last. The meta
/// page is left open.
pub open spec fn staged_in(m: Map<u64, Seq<u8>>, t: &EmbeddedTxn, c: &EmbeddedCompute) -> bool {
    let d = page_views(t.dirty@);
    let b = page_views(t.bptree_dirty@);
    &&& m.dom() == staged_ids(t).union(b.dom())
    &&& forall|id: u64| #[trigger] b.contains_key(id) && id != META_PAGE_ID ==> m[id] == b[id]
    &&& forall|id: u64| #[trigger]
        d.contains_key(id) && id != META_PAGE_ID && !b.contains_key(id) ==> m[id] == d[id]
    &&& t.undo.first_page_id matches Some(first) ==> (first != META_PAGE_ID && !d.contains_key(
        first,
    ) && !b.contains_key(first) ==> first_of(
        c.pages(),
        page_views(t.ro_cache@),
        Map::empty(),
        first,
    ) == Some(m[first]))
}

/// The plan writes page `id` with these bytes.
pub open spec fn plan_has(plan: CommitPlan, id: u64, bytes: Seq<u8>) -> bool {
    exists|i: int|
        0 <= i < plan.pages@.len() && (#[trigger] plan.pages@[i]).0 == id && bytes_view(
            plan.pages@[i].1,
        ) == bytes
}

/// The plan writes page `id`.
pub open spec fn plan_lists(plan: CommitPlan, id: u64) -> bool {
    exists|i: int| 0 <= i < plan.pages@.len() && (#[trigger] plan.pages@[i]).0 == id
}

/// The plan writes every page of `staged`; but for the meta page, the ends of the
/// history that are linked and the tree pages, as it was staged.
pub open spec fn keeps_staged(
    plan: CommitPlan,
    staged: Map<u64, Seq<u8>>,
    t: &EmbeddedTxn,
    tail: u64,
) -> bool {
    forall|id: u64| #[trigger]
        staged.contains_key(id) ==> plan_lists(plan, id) && (id != META_PAGE_ID
            && t.undo.first_page_id != Some(id) && !(t.undo.first_page_id is Some && id == tail)
            && !page_views(t.bptree_dirty@).contains_key(id) ==> plan_has(plan, id, staged[id]))
}

/// The text of the error that says that a commit touched pages it has no LSNs for.
pub open spec fn mismatch_text(reserved: int, count: int) -> Seq<char> {
    "reserved page count mismatch: reserved="@ + dec(reserved) + " final="@ + dec(count)
}

/// The outcome `r` of a commit whose meta page and last segment of the history are at
/// hand, and what it leaves behind.
///
/// A commit that finds one of its rows no longer its own is refused, and leaves that
/// row and all rows of others as they were; the rows before it stay its intents. Where
/// the first page of the undo segment is missing, or no LSNs are given out, all rows
/// stay its intents. After that they carry the commit LSN, even if linking the undo
/// segment fails.
pub open spec fn commit_outcome<T>(
    t0: &EmbeddedTxn,
    c0: &EmbeddedCompute,
    seq0: &Sequencer,
    t: &EmbeddedTxn,
    c: &EmbeddedCompute,
    seq: &Sequencer,
    r: Result<T>,
) -> bool {
    let rows = c0.tree.rows();
    let ks = t0.modified.keys@;
    let id = t0.undo_txn_id->0;
    let i = first_lost(rows, ks, id, 0);
    let ids = staged_ids(t);
    let n = ids.len() as int;
    &&& staged_but_tree(t0, c0, t)
    &&& if i < ks.len() {
        &&& lost_error(rows, ks[i]@, r)
        &&& all_stamped(rows, c.tree.rows(), keys_until(ks, i), 1, false)
        &&& page_views(t.dirty@) == tail_staged(t0, c0)
        &&& seq.next() == seq0.next()
    } else if first_missing(t0, c0, t) {
        &&& r matches Err(Error::InMemoryPageMissing(x)) && Some(x) == t0.undo.first_page_id
        &&& all_stamped(rows, c.tree.rows(), t0.modified@, 1, false)
        &&& seq.next() == seq0.next()
    } else if n > MAX_COMMIT_PAGES {
        &&& r matches Err(e) && is_io_error(e, IoErrorKind::InvalidInput, "txn batch too large"@)
        &&& all_stamped(rows, c.tree.rows(), t0.modified@, 1, false)
        &&& seq.next() == seq0.next()
    } else if !seq0.grants(n, id) {
        &&& seq0.refused(n, id, r)
        &&& all_stamped(rows, c.tree.rows(), t0.modified@, 1, false)
        &&& seq.next() == seq0.next()
    } else {
        &&& all_stamped(rows, c.tree.rows(), t0.modified@, (seq0.next() + n) as u64, true)
        &&& seq.next() == seq0.next() + n
        &&& exists|m: Map<u64, Seq<u8>>| #[trigger]
            staged_in(m, t, c) && linked_outcome(
                m,
                t,
                c,
                commit_meta_of(t0, c0)->0,
                seq0.next(),
                n,
                r,
            )
    }
}

impl EmbeddedTxn {
    /// Stages the last segment of the history, which is to be linked to this
    /// transaction's segment.
    #[verifier::spinoff_prover]
    fn stage_old_tail(&mut self, compute: &mut EmbeddedCompute, old_tail: PageId) -> (r: Result<()>)
        requires
            old(self).wf(),
            old(compute).wf(),
            !old(self).read_only,
        ensures
            forall|base: Map<PageId, Seq<u8>>| #[trigger]
                old(self).covers(old(compute), base) ==> final(self).covers(final(compute), base),
            final(compute).wf(),
            final(self).wf(),
            final(compute).tree == old(compute).tree,
            final(compute).active_reads == old(compute).active_reads,
            final(compute).registry == old(compute).registry,
            final(self).bptree_dirty == old(self).bptree_dirty,
            final(self).same_but_pages(old(self)),
            ({
                let d = page_views(old(self).dirty@);
                let staged = if old_tail == 0 || d.contains_key(old_tail) {
                    Some(d)
                } else {
                    match first_of(
                        Map::empty(),
                        old(compute).pages(),
                        page_views(old(self).ro_cache@),
                        old_tail,
                    ) {
                        Some(b) => Some(d.insert(old_tail, b)),
                        None => None,
                    }
                };
                match staged {
                    Some(d1) => {
                        &&& r is Ok
                        &&& page_views(final(self).dirty@) == d1
                        &&& final(compute).pages() == (if old_tail == 0 || d.contains_key(
                            old_tail,
                        ) {
                            old(compute).pages()
                        } else {
                            old(compute).pages().insert(old_tail, d1[old_tail])
                        })
                    },
                    None => {
                        &&& r matches Err(Error::InMemoryPageMissing(id)) && id == old_tail
                        &&& *final(self) == *old(self)
                        &&& *final(compute) == *old(compute)
                    },
                }
            }),
    {
        if old_tail == 0 || self.dirty.contains_key(&old_tail) {
            return Ok(());
        }
        let none: BTreeMap<u64, Page> = BTreeMap::new();
        assert(page_views(none@) =~= Map::empty());
        match find_first(&none, &compute.page_cache, &self.ro_cache, old_tail) {
            Some(p) => {
                self.write_page(compute, old_tail, p);
                Ok(())
            },
            None => Err(Error::InMemoryPageMissing(old_tail)),
        }
    }

    /// Stamps the rows, so that all pages that the commit will touch are staged,
    /// and collects these pages.
    #[verifier::spinoff_prover]
    fn stage_commit(&mut self, compute: &mut EmbeddedCompute) -> (r: Result<
        (MetaPage, BTreeMap<u64, Page>),
    >)
        requires
            old(self).wf(),
            old(compute).wf(),
            !old(self).read_only,
            can_stamp(old(compute), old(self).modified.keys@.len() as int),
        ensures
            forall|base: Map<PageId, Seq<u8>>| #[trigger]
                old(self).covers(old(compute), base) ==> final(self).covers(final(compute), base),
            final(self).wf(),
            final(compute).wf(),
            final(self).same_but_pages(old(self)),
            final(compute).active_reads == old(compute).active_reads,
            final(compute).registry == old(compute).registry,
            others_stay(
                old(compute).tree.rows(),
                final(compute).tree.rows(),
                old(self).modified@,
            ),
            final(compute).pages() == old(compute).pages() || final(compute).pages() == tail_cached(
                old(self),
                old(compute),
            ),
            page_views(old(self).bptree_dirty@).dom().subset_of(
                page_views(final(self).bptree_dirty@).dom(),
            ),
            ({
                let rows = old(compute).tree.rows();
                let ks = old(self).modified.keys@;
                let id = old(self).undo_txn_id->0;
                let shallow = old(compute).tree.shallow_for(2 * ks.len() as int);
                let tail = commit_meta_of(old(self), old(compute))->0.undo_history_tail;
                let i = first_lost(rows, ks, id, 0);
                let staged = tail_staged(old(self), old(compute));
                &&& if commit_meta_of(old(self), old(compute)) is None {
                    &&& not_meta(commit_meta_page(old(self), old(compute))->0, r)
                    &&& *final(self) == *old(self)
                    &&& *final(compute) == *old(compute)
                } else if !tail_at_hand(old(self), old(compute)) {
                    &&& r matches Err(Error::InMemoryPageMissing(x)) && x == tail
                    &&& *final(self) == *old(self)
                    &&& *final(compute) == *old(compute)
                } else {
                    &&& final(compute).pages() == tail_cached(old(self), old(compute))
                    &&& shallow ==> if i < ks.len() {
                        &&& lost_error(rows, ks[i]@, r)
                        &&& page_views(final(self).dirty@) == staged
                        &&& all_stamped(
                            rows,
                            final(compute).tree.rows(),
                            keys_until(ks, i),
                            1,
                            false,
                        )
                    } else {
                        &&& page_views(final(self).dirty@) == staged.union_prefer_right(
                            page_views(final(self).bptree_dirty@),
                        )
                        &&& all_stamped(
                            rows,
                            final(compute).tree.rows(),
                            old(self).modified@,
                            1,
                            false,
                        )
                        &&& if first_missing(old(self), old(compute), final(self)) {
                            r matches Err(Error::InMemoryPageMissing(x)) && Some(x) == old(
                                self,
                            ).undo.first_page_id
                        } else {
                            r is Ok
                        }
                    }
                }
                &&& r matches Ok((meta, map)) ==> {
                    &&& meta@ == commit_meta_of(old(self), old(compute))->0
                    &&& tail_at_hand(old(self), old(compute))
                    &&& can_take(final(compute), ks.len() as int)
                    &&& page_views(final(self).dirty@) == tail_staged(
                        old(self),
                        old(compute),
                    ).union_prefer_right(page_views(final(self).bptree_dirty@))
                    &&& final(compute).pages() == tail_cached(old(self), old(compute))
                    &&& well_shaped(old(compute).tree.tree()) ==> well_shaped(
                        final(compute).tree.tree(),
                    )
                    &&& all_roomy(old(compute).tree.tree(), ks) ==> {
                        let t = old(compute).tree.tree();
                        &&& same_ways(t, final(compute).tree.tree())
                        &&& page_views(final(self).bptree_dirty@).dom() == page_views(
                            old(self).bptree_dirty@,
                        ).dom().union(leaves_for(t, ks))
                    }
                    &&& final(compute).tree.depth() <= old(compute).tree.depth() + ks.len()
                    &&& page_views(map@).dom() == map@.dom()
                    &&& map@.dom() == staged_ids(final(self))
                    &&& final(self).bptree_dirty@.dom().subset_of(final(self).dirty@.dom())
                    &&& forall|x: u64| #[trigger]
                        page_views(final(self).bptree_dirty@).contains_key(x) && x != META_PAGE_ID
                            ==> page_views(map@).contains_key(x) && page_views(map@)[x]
                            == page_views(final(self).bptree_dirty@)[x]
                    &&& forall|x: u64| #[trigger]
                        page_views(final(self).dirty@).contains_key(x) ==> page_views(
                            map@,
                        ).contains_key(x) && (x != META_PAGE_ID ==> page_views(map@)[x]
                            == page_views(final(self).dirty@)[x])
                    &&& old(self).undo.first_page_id matches Some(first) ==> {
                        &&& first != META_PAGE_ID ==> first_of(
                            page_views(final(self).dirty@),
                            final(compute).pages(),
                            page_views(final(self).ro_cache@),
                            first,
                        ) == Some(page_views(map@)[first])
                        &&& meta@.undo_history_tail != 0 ==> page_views(
                            final(self).dirty@,
                        ).contains_key(meta@.undo_history_tail)
                    }
                    &&& shallow ==> i >= ks.len()
                }
            }),
    {
        let meta = match commit_meta(self, compute) {
            Ok(m) => m,
            Err(e) => {
                return Err(e);
            },
        };
        if self.undo.first_page_id.is_some() {
            match self.stage_old_tail(compute, meta.undo_history_tail) {
                Ok(()) => {},
                Err(e) => {
                    return Err(e);
                },
            }
        }
        let request_id: u64 = self.undo_txn_id.unwrap();
        proof {
            lemma_second_stamping(
                old(compute).tree.provider.next_id(),
                old(compute).tree.depth() as int,
                self.modified.keys@.len() as int,
                old(compute).tree.provider.next_id(),
                old(compute).tree.depth() as int,
            );
        }
        match self.stamp(compute, request_id, 1, false) {
            Ok(()) => {},
            Err(e) => {
                return Err(e);
            },
        }
        proof {
            lemma_second_stamping(
                old(compute).tree.provider.next_id(),
                old(compute).tree.depth() as int,
                self.modified.keys@.len() as int,
                compute.tree.provider.next_id(),
                compute.tree.depth() as int,
            );
        }
        merge_pages(&mut self.dirty, &self.bptree_dirty);
        let mut map: BTreeMap<u64, Page> = self.dirty.clone();
        match self.undo.first_page_id {
            Some(first) => {
                if !map.contains_key(&first) {
                    let none: BTreeMap<u64, Page> = BTreeMap::new();
                    match find_first(&compute.page_cache, &self.ro_cache, &none, first) {
                        Some(p) => store_page(&mut map, first, p),
                        None => {
                            return Err(Error::InMemoryPageMissing(first));
                        },
                    }
                }
            },
            None => {},
        }
        let mut count_meta = meta.duplicate();
        set_tree(&mut count_meta, compute);
        let cm = count_meta.encode();
        store_page(&mut map, META_PAGE_ID, cm);
        proof {
            assert(page_views(map@).dom() =~= map@.dom());
            assert(map@.dom() =~= staged_ids(self));
            assert(self.bptree_dirty@.dom().subset_of(self.dirty@.dom())) by {
                assert forall|x: u64| self.bptree_dirty@.dom().contains(x) implies self.dirty@.dom().contains(x) by {
                    assert(page_views(self.bptree_dirty@).contains_key(x));
                    assert(page_views(self.dirty@).contains_key(x));
                }
            }
        }
        Ok((meta, map))
    }

    /// Reserves LSNs for the pages, stamps the rows with the commit LSN and links
    /// the undo segment into the history.
    #[verifier::spinoff_prover]
    fn number_commit(
        &mut self,
        compute: &mut EmbeddedCompute,
        seq: &mut Sequencer,
        meta: MetaPage,
        map: BTreeMap<u64, Page>,
    ) -> (r: Result<CommitPlan>)
        requires
            old(self).wf(),
            old(compute).wf(),
            !old(self).read_only,
            can_take(old(compute), old(self).modified.keys@.len() as int),
            old(seq).next() <= u64::MAX - MAX_COMMIT_PAGES,
            page_views(map@).dom() == map@.dom(),
            map@.dom() == staged_ids(old(self)),
        ensures
            forall|base: Map<PageId, Seq<u8>>| #[trigger]
                old(self).covers(old(compute), base) ==> final(self).covers(final(compute), base),
            final(compute).wf(),
            final(self).same_but_tree_dirty(old(self)),
            final(compute).same_but_tree(old(compute)),
            others_stay(
                old(compute).tree.rows(),
                final(compute).tree.rows(),
                old(self).modified@,
            ),
            final(seq).durable() == old(seq).durable(),
            page_views(old(self).bptree_dirty@).dom().subset_of(
                page_views(final(self).bptree_dirty@).dom(),
            ),
            old(self).modified.keys@.len() == 0 ==> final(self).bptree_dirty == old(
                self,
            ).bptree_dirty,
            old(compute).tree.shallow_for(old(self).modified.keys@.len() as int) && first_lost(
                old(compute).tree.rows(),
                old(self).modified.keys@,
                old(self).undo_txn_id->0,
                0,
            ) >= old(self).modified.keys@.len() && all_roomy(
                old(compute).tree.tree(),
                old(self).modified.keys@,
            ) && old(seq).grants(map@.len() as int, old(self).undo_txn_id->0) && map@.len()
                <= MAX_COMMIT_PAGES ==> page_views(final(self).bptree_dirty@).dom()
                == page_views(old(self).bptree_dirty@).dom().union(
                leaves_for(old(compute).tree.tree(), old(self).modified.keys@),
            ),
            ({
                let rows = old(compute).tree.rows();
                let ks = old(self).modified.keys@;
                let id = old(self).undo_txn_id->0;
                &&& old(compute).tree.shallow_for(ks.len() as int)
                &&& first_lost(rows, ks, id, 0) >= ks.len()
                &&& old(seq).grants(map@.len() as int, id)
                &&& map@.len() <= MAX_COMMIT_PAGES
                &&& map@.contains_key(META_PAGE_ID)
                &&& old(self).undo.first_page_id matches Some(first) ==> {
                    &&& first != META_PAGE_ID
                    &&& map@.contains_key(first)
                    &&& is_segment(page_views(map@)[first])
                    &&& !final(self).bptree_dirty@.contains_key(first)
                    &&& meta@.undo_history_tail != 0 ==> {
                        &&& meta@.undo_history_tail != first
                        &&& map@.contains_key(meta@.undo_history_tail)
                        &&& is_segment(page_views(map@)[meta@.undo_history_tail])
                        &&& !final(self).bptree_dirty@.contains_key(meta@.undo_history_tail)
                    }
                }
            }) ==> if old(self).modified.keys@.len() == 0
                || final(self).bptree_dirty@.dom().subset_of(map@.dom()) {
                r is Ok
            } else {
                &&& r matches Err(e) && is_io_error(
                    e,
                    IoErrorKind::Other,
                    mismatch_text(
                        map@.len() as int,
                        map@.dom().union(final(self).bptree_dirty@.dom()).len() as int,
                    ),
                )
                &&& final(seq).next() == old(seq).next() + map@.len()
                &&& all_stamped(
                    old(compute).tree.rows(),
                    final(compute).tree.rows(),
                    old(self).modified@,
                    (old(seq).next() + map@.len()) as u64,
                    true,
                )
            },
            ({
                let rows = old(compute).tree.rows();
                let ks = old(self).modified.keys@;
                let id = old(self).undo_txn_id->0;
                let n = map@.len() as int;
                let lsn = old(seq).next();
                if n > MAX_COMMIT_PAGES {
                    &&& r matches Err(e) && is_io_error(
                        e,
                        IoErrorKind::InvalidInput,
                        "txn batch too large"@,
                    )
                    &&& final(seq).next() == lsn
                    &&& *final(self) == *old(self)
                    &&& *final(compute) == *old(compute)
                } else if !old(seq).grants(n, id) {
                    &&& old(seq).refused(n, id, r)
                    &&& final(seq).next() == lsn
                    &&& *final(self) == *old(self)
                    &&& *final(compute) == *old(compute)
                } else {
                    &&& final(seq).next() == lsn + n
                    &&& old(compute).tree.shallow_for(ks.len() as int) && first_lost(
                        rows,
                        ks,
                        id,
                        0,
                    ) >= ks.len() ==> {
                        &&& all_stamped(
                            rows,
                            final(compute).tree.rows(),
                            old(self).modified@,
                            (lsn + n) as u64,
                            true,
                        )
                        &&& linked_outcome(
                            with_tree_pages(page_views(map@), final(self)),
                            final(self),
                            final(compute),
                            meta@,
                            lsn,
                            n,
                            r,
                        )
                    }
                }
            }),
            r matches Ok(plan) ==> {
                let rows = old(compute).tree.rows();
                let ks = old(self).modified.keys@;
                let id = old(self).undo_txn_id->0;
                &&& plan.request_id == id
                &&& old(seq).grants(plan.pages@.len() as int, id)
                &&& plan.start_lsn == old(seq).next()
                &&& plan.end_lsn == plan.start_lsn + plan.pages@.len()
                &&& final(seq).next() == plan.end_lsn
                &&& pages_from(
                    with_tree_pages(page_views(map@), final(self)),
                    plan,
                    *final(self),
                    *final(compute),
                    meta@,
                )
                &&& old(compute).tree.shallow_for(ks.len() as int) && first_lost(
                    rows,
                    ks,
                    id,
                    0,
                ) >= ks.len() ==> all_stamped(
                    rows,
                    final(compute).tree.rows(),
                    old(self).modified@,
                    plan.end_lsn,
                    true,
                )
            },
    {
        let mut meta = meta;
        let mut map = map;
        let ghost base = meta@;
        let ghost ids0 = map@.dom();
        let request_id: u64 = self.undo_txn_id.unwrap();
        let reserve_n: usize = map.len();
        if reserve_n as u64 > MAX_COMMIT_PAGES {
            return Err(io_error(IoErrorKind::InvalidInput, "txn batch too large"));
        }
        let (start_lsn, end_lsn) = match seq.reserve_txn_with_request_id(reserve_n, request_id) {
            Ok(p) => p,
            Err(e) => {
                return Err(e);
            },
        };
        if !self.modified.is_empty() {
            match self.stamp(compute, request_id, end_lsn, true) {
                Ok(()) => {},
                Err(e) => {
                    return Err(e);
                },
            }
            merge_pages(&mut map, &self.bptree_dirty);
        }
        set_tree(&mut meta, compute);
        let ghost map1 = page_views(map@);
        let ghost meta1 = meta@;
        match link_segment(&mut map, compute, self, &mut meta, request_id, start_lsn, end_lsn) {
            Ok(()) => {},
            Err(e) => {
                return Err(e);
            },
        }
        let ghost map2 = page_views(map@);
        let mp = meta.encode();
        let ghost mb = bytes_view(mp);
        let ghost ids = map@.dom();
        store_page(&mut map, META_PAGE_ID, mp);
        proof {
            assert(page_views(map@).dom() =~= map@.dom());
            assert(map2.dom() =~= ids);
            let touched = if self.modified.keys@.len() > 0 {
                self.bptree_dirty@.dom()
            } else {
                Set::<u64>::empty()
            };
            if self.modified.keys@.len() == 0 {
                let none = Set::<u64>::empty();
                assert(leaves_for(old(compute).tree.tree(), self.modified.keys@) =~= none);
                assert(page_views(self.bptree_dirty@).dom().union(none) =~= page_views(
                    self.bptree_dirty@,
                ).dom());
            }
            if ids0.contains(META_PAGE_ID) && (self.undo.first_page_id matches Some(first)
                ==> ids0.contains(first) && (meta1.undo_history_tail != 0 ==> ids0.contains(
                meta1.undo_history_tail,
            ))) {
                assert(map1.dom() =~= ids0.union(touched));
                assert(map@.dom() =~= ids0.union(touched));
                if touched.subset_of(ids0) {
                    assert(ids0.union(touched) =~= ids0);
                } else {
                    let x = choose|x: u64| touched.contains(x) && !ids0.contains(x);
                    assert(ids0.insert(x).subset_of(map@.dom()));
                    vstd::set_lib::lemma_len_subset(ids0.insert(x), map@.dom());
                }
            }
        }
        assert(map@.dom() =~= map2.dom().insert(META_PAGE_ID));
        if map.len() != reserve_n {
            let m = text_num2(
                "reserved page count mismatch: reserved=",
                reserve_n as u64,
                " final=",
                map.len() as u64,
            );
            return Err(io_error(IoErrorKind::Other, m.as_str()));
        }
        let pages = list_pages(&map);
        let plan = CommitPlan { request_id, start_lsn, end_lsn, pages };
        proof {
            assert(page_views(map@).dom() =~= map@.dom());
            lemma_pages_from(map1, map2, plan, *self, *compute, base, meta@, mb);
        }
        Ok(plan)
    }

    /// Carries out a commit up to the point where its pages go out.
    ///
    /// The rows that the transaction wrote get the commit LSN and are no longer
    /// intents; the pages are all pages that were written, the undo segment linked
    /// into the history, and the meta page. LSNs are reserved for the pages that a
    /// first stamping touched; where the second one splits a page and so touches
    /// more, the commit fails.
    #[verifier::spinoff_prover]
    #[verifier::rlimit(60)]
    pub fn prepare_commit(
        &mut self,
        compute: &mut EmbeddedCompute,
        seq: &mut Sequencer,
        elapsed_nanos: u128,
    ) -> (r: Result<CommitStep>)
        requires
            old(self).wf(),
            old(compute).wf(),
            can_stamp(old(compute), old(self).modified.keys@.len() as int),
            old(seq).next() <= u64::MAX - MAX_COMMIT_PAGES,
        ensures
            forall|base: Map<PageId, Seq<u8>>| #[trigger]
                old(self).covers(old(compute), base) ==> final(self).covers(final(compute), base),
            final(compute).wf(),
            others_stay(
                old(compute).tree.rows(),
                final(compute).tree.rows(),
                old(self).modified@,
            ),
            ({
                let t0 = *old(self);
                let c0 = *old(compute);
                let rows = c0.tree.rows();
                let ks = t0.modified.keys@;
                let shallow = c0.tree.shallow_for(2 * ks.len() as int);
                let tail = commit_meta_of(&t0, &c0)->0.undo_history_tail;
                if t0.timed_out(elapsed_nanos) {
                    &&& r matches Err(Error::TxnTimeout)
                    &&& *final(self) == t0
                    &&& *final(compute) == c0
                    &&& *final(seq) == *old(seq)
                } else if t0.read_only {
                    &&& *final(self) == t0
                    &&& *final(compute) == c0
                    &&& *final(seq) == *old(seq)
                    &&& if wrote(&t0) {
                        r matches Err(e) && is_read_only_error(e)
                    } else {
                        r matches Ok(CommitStep::Done(lsn)) && lsn == t0.read_lsn
                    }
                } else {
                    let id = t0.undo_txn_id->0;
                    let ids = staged_ids(final(self));
                    &&& final(self).same_but_pages(&t0)
                    &&& final(compute).active_reads == c0.active_reads
                    &&& final(compute).registry == c0.registry
                    &&& final(compute).pages() == c0.pages() || final(compute).pages()
                        == tail_cached(&t0, &c0)
                    &&& final(seq).durable() == old(seq).durable()
                    &&& if commit_meta_of(&t0, &c0) is None {
                        &&& not_meta(commit_meta_page(&t0, &c0)->0, r)
                        &&& *final(self) == t0
                        &&& *final(compute) == c0
                        &&& final(seq).next() == old(seq).next()
                    } else if !tail_at_hand(&t0, &c0) {
                        &&& r matches Err(Error::InMemoryPageMissing(x)) && x == tail
                        &&& *final(self) == t0
                        &&& *final(compute) == c0
                        &&& final(seq).next() == old(seq).next()
                    } else {
                        &&& final(compute).pages() == tail_cached(&t0, &c0)
                        &&& shallow ==> commit_outcome(
                            &t0,
                            &c0,
                            old(seq),
                            final(self),
                            final(compute),
                            final(seq),
                            r,
                        )
                    }
                    &&& commits(&t0, &c0, old(seq)) ==> r is Ok
                    &&& {
                        &&& shallow
                        &&& commit_meta_of(&t0, &c0) is Some
                        &&& first_lost(rows, ks, id, 0) >= ks.len()
                        &&& tail_at_hand(&t0, &c0)
                        &&& t0.undo.first_page_id matches Some(first) ==> page_at_hand(
                            &t0,
                            &c0,
                            first,
                        )
                        &&& can_link(final(self), final(compute), tail)
                        &&& old(seq).grants(ids.len() as int, id)
                        &&& ids.len() <= MAX_COMMIT_PAGES
                    } ==> if ks.len() == 0 || final(self).bptree_dirty@.dom().subset_of(ids) {
                        r is Ok
                    } else {
                        &&& r matches Err(e) && is_io_error(
                            e,
                            IoErrorKind::Other,
                            mismatch_text(
                                ids.len() as int,
                                ids.union(final(self).bptree_dirty@.dom()).len() as int,
                            ),
                        )
                        &&& final(seq).next() == old(seq).next() + ids.len()
                        &&& page_views(t0.bptree_dirty@).dom().subset_of(ids)
                        &&& all_stamped(
                            rows,
                            final(compute).tree.rows(),
                            t0.modified@,
                            (old(seq).next() + ids.len()) as u64,
                            true,
                        )
                    }
                    &&& r matches Ok(step) ==> {
                        &&& step matches CommitStep::Write(plan)
                        &&& plan.request_id == id
                        &&& tail_at_hand(&t0, &c0)
                        &&& old(seq).grants(plan.pages@.len() as int, id)
                        &&& plan.start_lsn == old(seq).next()
                        &&& plan.end_lsn == plan.start_lsn + plan.pages@.len()
                        &&& final(seq).next() == plan.end_lsn
                        &&& plan_pages(
                            plan,
                            *final(self),
                            *final(compute),
                            commit_meta_of(&t0, &c0)->0,
                        )
                        &&& final(compute).pages() == tail_cached(&t0, &c0)
                        &&& keeps_staged(plan, tail_staged(&t0, &c0), final(self), tail)
                        &&& shallow ==> all_stamped(
                            rows,
                            final(compute).tree.rows(),
                            t0.modified@,
                            plan.end_lsn,
                            true,
                        )
                    }
                }
            }),
    {
        match self.ensure_not_timed_out(elapsed_nanos) {
            Ok(()) => {},
            Err(e) => {
                return Err(e);
            },
        }
        if self.read_only {
            let any: bool = self.write_attempted || self.dirty.len() > 0 || self.bptree_dirty.len()
                > 0 || !self.modified.is_empty();
            if any {
                return Err(io_error(IoErrorKind::PermissionDenied, "read-only transaction"));
            }
            return Ok(CommitStep::Done(self.read_lsn));
        }
        let ghost rows = compute.tree.rows();
        let ghost ks = self.modified.keys@;
        let ghost shallow = compute.tree.shallow_for(2 * ks.len() as int);
        let ghost id = self.undo_txn_id->0;
        let (meta, map) = match self.stage_commit(compute) {
            Ok(p) => p,
            Err(e) => {
                proof {
                    let b = page_views(self.bptree_dirty@);
                    let d0 = tail_staged(old(self), old(compute));
                    if page_views(self.dirty@) == d0.union_prefer_right(b) {
                        lemma_staged_but_tree(old(self), old(compute), b, self);
                    } else if page_views(self.dirty@) == d0 {
                        assert(d0.union_prefer_right(Map::empty()) =~= d0);
                        lemma_staged_but_tree(old(self), old(compute), Map::empty(), self);
                    }
                }
                return Err(e);
            },
        };
        let ghost rows1 = compute.tree.rows();
        let ghost t1 = *self;
        let ghost c1 = *compute;
        proof {
            if shallow {
                lemma_still_owned(rows, rows1, ks, self.modified@, id, 0);
            }
            if commits(old(self), old(compute), old(seq)) {
                lemma_commit_ids(old(self), old(compute), &t1, &c1);
            }
            if all_roomy(old(compute).tree.tree(), ks) {
                lemma_same_leaves(old(compute).tree.tree(), compute.tree.tree(), ks);
            }
            assert(page_views(old(self).bptree_dirty@).dom().subset_of(staged_ids(&t1))) by {
                assert forall|x: u64| page_views(
                    old(self).bptree_dirty@,
                ).dom().contains(x) implies staged_ids(&t1).contains(x) by {
                    assert(page_views(t1.bptree_dirty@).dom().contains(x));
                    assert(page_views(t1.dirty@).contains_key(x));
                }
            }
        }
        let ghost meta0 = meta@;
        let ghost map0 = page_views(map@);
        let plan = match self.number_commit(compute, seq, meta, map) {
            Ok(p) => p,
            Err(e) => {
                proof {
                    lemma_others_twice(rows, rows1, compute.tree.rows(), self.modified@);
                    lemma_staged_in(map0, &t1, &c1, self, compute);
                    lemma_staged_but_tree(
                        old(self),
                        old(compute),
                        page_views(t1.bptree_dirty@),
                        self,
                    );
                    if commits(old(self), old(compute), old(seq)) {
                        lemma_no_mismatch(old(self), old(compute), &t1, self, ks);
                    }
                    let lsn = (old(seq).next() + staged_ids(self).len()) as u64;
                    if shallow && all_stamped(rows1, compute.tree.rows(), self.modified@, lsn, true) {
                        lemma_stamped_twice(rows, rows1, compute.tree.rows(), self.modified@, lsn);
                    }
                }
                return Err(e);
            },
        };
        proof {
            lemma_others_twice(rows, rows1, compute.tree.rows(), self.modified@);
            lemma_staged_in(map0, &t1, &c1, self, compute);
            lemma_staged_but_tree(old(self), old(compute), page_views(t1.bptree_dirty@), self);
            if shallow {
                lemma_stamped_twice(
                    rows,
                    rows1,
                    compute.tree.rows(),
                    old(self).modified@,
                    plan.end_lsn,
                );
            }
            lemma_keeps_staged(
                plan,
                tail_staged(old(self), old(compute)),
                page_views(t1.bptree_dirty@),
                self,
                compute,
                meta0,
            );
        }
        Ok(CommitStep::Write(plan))
    }
}

/// Rows that stay in two steps stay.
proof fn lemma_others_twice(
    a: Map<Seq<u8>, LeafRow>,
    b: Map<Seq<u8>, LeafRow>,
    c: Map<Seq<u8>, LeafRow>,
    ks: Set<Seq<u8>>,
)
    requires
        others_stay(a, b, ks),
        others_stay(b, c, ks),
    ensures
        others_stay(a, c, ks),
{
    assert forall|k: Seq<u8>| !ks.contains(k) implies {
        &&& #[trigger] c.contains_key(k) == a.contains_key(k)
        &&& a.contains_key(k) ==> c[k] == a[k]
    } by {
        assert(b.contains_key(k) == a.contains_key(k));
        assert(c.contains_key(k) == b.contains_key(k));
    }
}

/// What the staged pages are, if they are known up to the tree pages.
proof fn lemma_staged_but_tree(
    t0: &EmbeddedTxn,
    c0: &EmbeddedCompute,
    b: Map<u64, Seq<u8>>,
    t: &EmbeddedTxn,
)
    requires
        page_views(t.dirty@) == tail_staged(t0, c0).union_prefer_right(b),
        b.dom().subset_of(page_views(t.bptree_dirty@).dom()),
    ensures
        staged_but_tree(t0, c0, t),
{
    let d0 = tail_staged(t0, c0);
    assert forall|id: u64| !page_views(t.bptree_dirty@).contains_key(id) implies {
        &&& #[trigger] page_views(t.dirty@).contains_key(id) == d0.contains_key(id)
        &&& d0.contains_key(id) ==> page_views(t.dirty@)[id] == d0[id]
    } by {
        assert(!b.dom().contains(id));
    }
}

/// The pages that were staged for a commit of which no page has to be split.
proof fn lemma_commit_ids(
    t0: &EmbeddedTxn,
    c0: &EmbeddedCompute,
    t1: &EmbeddedTxn,
    c1: &EmbeddedCompute,
)
    requires
        t1.same_but_pages(t0),
        page_views(t1.dirty@) == tail_staged(t0, c0).union_prefer_right(
            page_views(t1.bptree_dirty@),
        ),
        c1.pages() == tail_cached(t0, c0),
        page_views(t1.bptree_dirty@).dom() == tree_ids(t0, c0),
        t0.undo.first_page_id matches Some(first) ==> {
            let tail = commit_meta_of(t0, c0)->0.undo_history_tail;
            &&& first != META_PAGE_ID && segment_at(t0, c0, first) && !tree_ids(t0, c0).contains(
                first,
            )
            &&& tail != 0 ==> tail != first && tail != META_PAGE_ID && segment_at(t0, c0, tail)
                && !tree_ids(t0, c0).contains(tail)
        },
    ensures
        staged_ids(t1) == commit_ids(t0, c0),
        can_link(t1, c1, commit_meta_of(t0, c0)->0.undo_history_tail),
        page_views(t1.dirty@).dom() == tail_staged(t0, c0).dom().union(tree_ids(t0, c0)),
{
    let b = page_views(t1.bptree_dirty@);
    assert(t1.dirty@.dom() =~= page_views(t1.dirty@).dom());
    assert(page_views(t1.dirty@).dom() =~= tail_staged(t0, c0).dom().union(tree_ids(t0, c0)));
    assert(t1.bptree_dirty@.dom() =~= b.dom());
    match t0.undo.first_page_id {
        Some(first) => {
            assert(!b.dom().contains(first));
        },
        None => {},
    }
    assert(staged_ids(t1) =~= commit_ids(t0, c0));
}

/// The second stamping touches no more pages, where no page has to be split.
proof fn lemma_no_mismatch(
    t0: &EmbeddedTxn,
    c0: &EmbeddedCompute,
    t1: &EmbeddedTxn,
    t2: &EmbeddedTxn,
    ks: Seq<Vec<u8>>,
)
    requires
        ks == t0.modified.keys@,
        page_views(t1.bptree_dirty@).dom() == tree_ids(t0, c0),
        page_views(t2.bptree_dirty@).dom() == page_views(t1.bptree_dirty@).dom().union(
            leaves_for(c0.tree.tree(), ks),
        ),
        page_views(t1.dirty@).dom() == tail_staged(t0, c0).dom().union(tree_ids(t0, c0)),
    ensures
        t2.bptree_dirty@.dom() == tree_ids(t0, c0),
        t2.bptree_dirty@.dom().subset_of(t1.dirty@.dom()),
{
    assert(t2.bptree_dirty@.dom() =~= page_views(t2.bptree_dirty@).dom());
    assert(t1.dirty@.dom() =~= page_views(t1.dirty@).dom());
    assert(t2.bptree_dirty@.dom() =~= tree_ids(t0, c0));
}

/// A plan writes all pages that were staged.
proof fn lemma_keeps_staged(
    plan: CommitPlan,
    staged: Map<u64, Seq<u8>>,
    b: Map<u64, Seq<u8>>,
    t: &EmbeddedTxn,
    c: &EmbeddedCompute,
    meta: MetaFields,
)
    requires
        plan_pages(plan, *t, *c, meta),
        page_views(t.dirty@) == staged.union_prefer_right(b),
        b.dom().subset_of(page_views(t.bptree_dirty@).dom()),
    ensures
        keeps_staged(plan, staged, t, meta.undo_history_tail),
{
    let m = choose|m: Map<u64, Seq<u8>>| #[trigger]
        pages_from(m, plan, *t, *c, meta) && staged_in(m, t, c);
    let (m2, meta2, mb) = choose|m2: Map<u64, Seq<u8>>, meta2: MetaFields, mb: Seq<u8>|
        linked(
            m,
            c.pages(),
            page_views(t.ro_cache@),
            t.undo,
            with_tree(meta, c),
            plan.request_id,
            plan.start_lsn,
            plan.end_lsn,
        ) == Some((m2, meta2)) && #[trigger] is_meta_page(mb, meta2) && #[trigger] lists_pages(
            plan.pages@,
            m2.insert(META_PAGE_ID, mb),
        );
    let all = m2.insert(META_PAGE_ID, mb);
    assert forall|id: u64| #[trigger] staged.contains_key(id) implies plan_lists(plan, id) && (id
        != META_PAGE_ID && t.undo.first_page_id != Some(id) && !(t.undo.first_page_id is Some && id
        == meta.undo_history_tail) && !page_views(t.bptree_dirty@).contains_key(id) ==> plan_has(
        plan,
        id,
        staged[id],
    )) by {
        assert(page_views(t.dirty@).contains_key(id));
        assert(m.contains_key(id));
        assert(all.contains_key(id));
        let i = choose|i: int| 0 <= i < plan.pages@.len() && (#[trigger] plan.pages@[i]).0 == id;
        assert(plan.pages@[i].0 == id);
        if !page_views(t.bptree_dirty@).contains_key(id) {
            assert(!b.dom().contains(id));
        }
    }
}

proof fn lemma_pages_from(
    map1: Map<u64, Seq<u8>>,
    map2: Map<u64, Seq<u8>>,
    plan: CommitPlan,
    t: EmbeddedTxn,
    c: EmbeddedCompute,
    base: MetaFields,
    meta2: MetaFields,
    mb: Seq<u8>,
)
    requires
        linked(
            map1,
            c.pages(),
            page_views(t.ro_cache@),
            t.undo,
            with_tree(base, &c),
            plan.request_id,
            plan.start_lsn,
            plan.end_lsn,
        ) == Some((map2, meta2)),
        is_meta_page(mb, meta2),
        lists_pages(plan.pages@, map2.insert(META_PAGE_ID, mb)),
    ensures
        pages_from(map1, plan, t, c, base),
{
}

/// The pages of a plan: those of `m`, with the undo segment linked into the
/// history, and the meta page.
pub open spec fn pages_from(
    m: Map<u64, Seq<u8>>,
    plan: CommitPlan,
    t: EmbeddedTxn,
    c: EmbeddedCompute,
    base: MetaFields,
) -> bool {
    exists|m2: Map<u64, Seq<u8>>, meta2: MetaFields, mb: Seq<u8>|
        linked(
            m,
            c.pages(),
            page_views(t.ro_cache@),
            t.undo,
            with_tree(base, &c),
            plan.request_id,
            plan.start_lsn,
            plan.end_lsn,
        ) == Some((m2, meta2)) && #[trigger] is_meta_page(mb, meta2) && #[trigger] lists_pages(
            plan.pages@,
            m2.insert(META_PAGE_ID, mb),
        )
}

/// The pages of a plan are those that the transaction staged.
pub open spec fn plan_pages(
    plan: CommitPlan,
    t: EmbeddedTxn,
    c: EmbeddedCompute,
    base: MetaFields,
) -> bool {
    exists|m: Map<u64, Seq<u8>>| #[trigger]
        pages_from(m, plan, t, c, base) && staged_in(m, &t, &c)
}

/// The pages that were collected before LSNs were reserved, with the tree pages that
/// were written since.
proof fn lemma_staged_in(
    map: Map<u64, Seq<u8>>,
    t1: &EmbeddedTxn,
    c1: &EmbeddedCompute,
    t: &EmbeddedTxn,
    c: &EmbeddedCompute,
)
    requires
        t.same_but_tree_dirty(t1),
        c.same_but_tree(c1),
        map.dom() == staged_ids(t1),
        t1.bptree_dirty@.dom().subset_of(t1.dirty@.dom()),
        page_views(t1.bptree_dirty@).dom().subset_of(page_views(t.bptree_dirty@).dom()),
        t1.modified.keys@.len() == 0 ==> t.bptree_dirty == t1.bptree_dirty,
        forall|x: u64| #[trigger]
            page_views(t1.dirty@).contains_key(x) && x != META_PAGE_ID ==> map[x] == page_views(
                t1.dirty@,
            )[x],
        forall|x: u64| #[trigger]
            page_views(t1.bptree_dirty@).contains_key(x) && x != META_PAGE_ID ==> map[x]
                == page_views(t1.bptree_dirty@)[x],
        t1.undo.first_page_id matches Some(first) ==> (first != META_PAGE_ID ==> first_of(
            page_views(t1.dirty@),
            c1.pages(),
            page_views(t1.ro_cache@),
            first,
        ) == Some(map[first])),
    ensures
        staged_in(with_tree_pages(map, t), t, c),
{
    let m = with_tree_pages(map, t);
    let b = page_views(t.bptree_dirty@);
    let b1 = page_views(t1.bptree_dirty@);
    assert(t1.dirty@.dom() =~= page_views(t1.dirty@).dom());
    assert(t1.bptree_dirty@.dom() =~= b1.dom());
    assert(m.dom() =~= staged_ids(t).union(b.dom())) by {
        if t1.modified.keys@.len() == 0 {
            assert(b1.dom().subset_of(staged_ids(t)));
        }
    }
    assert forall|id: u64| #[trigger] page_views(t.dirty@).contains_key(id) && id != META_PAGE_ID
        && !b.contains_key(id) implies m[id] == page_views(t.dirty@)[id] by {
        assert(page_views(t1.dirty@).contains_key(id));
    }
}

proof fn lemma_still_owned(
    rows: Map<Seq<u8>, LeafRow>,
    rows1: Map<Seq<u8>, LeafRow>,
    ks: Seq<Vec<u8>>,
    set: Set<Seq<u8>>,
    id: u64,
    i: int,
)
    requires
        0 <= i <= ks.len(),
        first_lost(rows, ks, id, i) >= ks.len(),
        all_stamped(rows, rows1, set, 1, false),
    ensures
        first_lost(rows1, ks, id, i) >= ks.len(),
    decreases ks.len() - i,
{
    if i < ks.len() {
        assert(rows.contains_key(ks[i]@));
        assert(rows1.dom().contains(ks[i]@));
        lemma_still_owned(rows, rows1, ks, set, id, i + 1);
    }
}

proof fn lemma_stamped_twice(
    rows: Map<Seq<u8>, LeafRow>,
    rows1: Map<Seq<u8>, LeafRow>,
    rows2: Map<Seq<u8>, LeafRow>,
    set: Set<Seq<u8>>,
    lsn: u64,
)
    requires
        all_stamped(rows, rows1, set, 1, false),
        all_stamped(rows1, rows2, set, lsn, true),
    ensures
        all_stamped(rows, rows2, set, lsn, true),
{
    assert forall|k: Seq<u8>| #[trigger] rows.contains_key(k) implies rows2[k] == (if set.contains(
        k,
    ) {
        stamped(rows[k], lsn, true)
    } else {
        rows[k]
    }) by {
        assert(rows1.dom().contains(k));
        assert(rows1.contains_key(k));
    }
}

/// The first page of a wrong size.
pub open spec fn first_bad_size(pages: Seq<(PageId, Page)>, i: int) -> int
    decreases pages.len() - i,
{
    if i >= pages.len() || bytes_view(pages[i].1).len() != PAGE_SIZE {
        i
    } else {
        first_bad_size(pages, i + 1)
    }
}

/// Rejects pages of a wrong size before they go out.
pub fn check_page_sizes(pages: &Vec<(PageId, Page)>) -> (r: Result<()>)
    ensures
        ({
            let bad = first_bad_size(pages@, 0);
            if bad < pages@.len() {
                r matches Err(Error::InvalidPageSize(a, b)) && a == bytes_view(pages@[bad].1).len()
                    && b == PAGE_SIZE
            } else {
                r is Ok
            }
        }),
{
    let n: usize = pages.len();
    let mut i: usize = 0;
    while i < n
        invariant
            n == pages@.len(),
            i <= n,
            first_bad_size(pages@, 0) == first_bad_size(pages@, i as int),
        decreases n - i,
    {
        let b = page_bytes(&pages[i].1);
        if b.len() != PAGE_SIZE {
            return Err(Error::InvalidPageSize(b.len(), PAGE_SIZE));
        }
        i += 1;
    }
    Ok(())
}

impl EmbeddedCompute {
    /// Takes note that the pages of a commit are durable: they are cached, and the
    /// transaction is no longer under way.
    pub fn finish_commit(&mut self, plan: &CommitPlan)
        requires
            old(self).wf(),
        ensures
            final(self).wf(),
            final(self).tree == old(self).tree,
            final(self).active_reads == old(self).active_reads,
            final(self).pages() == put_all(
                old(self).pages(),
                plan.pages@,
                plan.pages@.len() as int,
            ),
            final(self).registry.txns@ == old(self).registry.txns@.remove(plan.request_id),
    {
        let n: usize = plan.pages.len();
        let mut i: usize = 0;
        while i < n
            invariant
                n == plan.pages@.len(),
                i <= n,
                self.wf(),
                self.tree == old(self).tree,
                self.active_reads == old(self).active_reads,
                self.registry == old(self).registry,
                self.pages() == put_all(old(self).pages(), plan.pages@, i as int),
            decreases n - i,
        {
            let e = &plan.pages[i];
            store_page(&mut self.page_cache, e.0, e.1.clone());
            i += 1;
        }
        self.registry.remove_pending_txn(plan.request_id);
    }
}

/// A committed row is what every snapshot from its commit LSN on sees; an earlier
/// snapshot goes back to the undo records.
pub proof fn law_commit_visibility(row: LeafRow, lsn: u64, own: Option<u64>, read_lsn: u64)
    ensures
        ({
            let meta = stamped(row, lsn, true).meta;
            let seen = row_seen(meta, own, read_lsn);
            if lsn <= read_lsn {
                seen == (if is_tombstone(row.meta.flags) {
                    Visibility::Deleted
                } else {
                    Visibility::Current
                })
            } else {
                seen == Visibility::Undo(meta.undo_ptr)
            }
        }),
{
    let f = row.meta.flags;
    assert((f & !2u16) & 2u16 == 0) by (bit_vector);
    assert((f & !2u16) & 1u16 == f & 1u16) by (bit_vector);
}

/// A snapshot keeps its version of a row while another transaction overwrites it:
/// the undo record that the write kept leads back to it, before the commit and
/// after it, be it the row that was overwritten or an older version of it. Only a
/// snapshot that is not older than the write waits meanwhile.
pub proof fn law_snapshot_is_kept(
    m: Map<u64, Seq<u8>>,
    old: LeafRow,
    value: Seq<u8>,
    u: UndoPtr,
    txn_id: u64,
    base_lsn: u64,
    lsn: u64,
    own: Option<u64>,
    read_lsn: u64,
)
    requires
        u.page_id != 0,
        undo_here(m, u),
        slot_readable(m[u.page_id], u.slot_id as int),
        undo_at(m, u).old_commit_lsn == old.meta.commit_lsn,
        undo_at(m, u).old_flags == old.meta.flags,
        undo_at(m, u).old_value == old.value,
        undo_at(m, u).prev == old.meta.undo_ptr,
        !is_intent(old.meta.flags),
        old.meta.commit_lsn > read_lsn ==> walk_finite(m, old.meta.undo_ptr, read_lsn),
        read_lsn < lsn,
        own != Some(txn_id),
    ensures
        ({
            let intent = intent_row(value, Some(u), FLAG_INTENT, txn_id, base_lsn);
            &&& row_seen(intent.meta, own, read_lsn) == (if read_lsn < base_lsn {
                Visibility::Undo(Some(u))
            } else {
                Visibility::Wait(txn_id)
            })
            &&& row_seen(stamped(intent, lsn, true).meta, own, read_lsn) == Visibility::Undo(
                Some(u),
            )
            &&& walk_finite(m, Some(u), read_lsn)
            &&& undo_version(m, Some(u), read_lsn) == committed_version(
                m,
                old.meta,
                old.value,
                read_lsn,
            )
        }),
{
    law_overwritten_version_is_found(m, u, old.meta, old.value, read_lsn);
    law_commit_visibility(
        intent_row(value, Some(u), FLAG_INTENT, txn_id, base_lsn),
        lsn,
        own,
        read_lsn,
    );
    assert(2u16 & 2u16 != 0) by (bit_vector);
}

/// What a transaction wrote is what every transaction reads whose snapshot is not
/// older than the commit: the value, or no row after a delete.
pub proof fn law_committed_write_is_read(
    before: EmbeddedCompute,
    after: EmbeddedCompute,
    written: Set<Seq<u8>>,
    key: Seq<u8>,
    lsn: u64,
    reader: EmbeddedTxn,
)
    requires
        written.contains(key),
        before.tree.rows().contains_key(key),
        all_stamped(before.tree.rows(), after.tree.rows(), written, lsn, true),
        after.tree.depth() < MAX_SCAN_LEAF_HOPS,
        lsn <= reader.read_lsn,
    ensures
        ({
            let row = before.tree.rows()[key];
            version_at(reader, after, key) == RowAt::Value(
                if is_tombstone(row.meta.flags) {
                    None
                } else {
                    Some(row.value)
                },
            )
        }),
{
    let row = before.tree.rows()[key];
    law_commit_visibility(row, lsn, reader.undo_txn_id, reader.read_lsn);
    assert(after.tree.rows().dom().contains(key));
}

/// A commit shows all of its rows at once: every transaction whose snapshot is not
/// older than the commit reads each of them as it was written.
pub proof fn law_commit_shows_all(
    before: EmbeddedCompute,
    after: EmbeddedCompute,
    written: Set<Seq<u8>>,
    lsn: u64,
    reader: EmbeddedTxn,
)
    requires
        forall|key: Seq<u8>| #[trigger]
            written.contains(key) ==> before.tree.rows().contains_key(key),
        all_stamped(before.tree.rows(), after.tree.rows(), written, lsn, true),
        after.tree.depth() < MAX_SCAN_LEAF_HOPS,
        lsn <= reader.read_lsn,
    ensures
        forall|key: Seq<u8>| #[trigger]
            written.contains(key) ==> ({
                let row = before.tree.rows()[key];
                version_at(reader, after, key) == RowAt::Value(
                    if is_tombstone(row.meta.flags) {
                        None
                    } else {
                        Some(row.value)
                    },
                )
            }),
{
    assert forall|key: Seq<u8>| #[trigger] written.contains(key) implies ({
        let row = before.tree.rows()[key];
        version_at(reader, after, key) == RowAt::Value(
            if is_tombstone(row.meta.flags) {
                None
            } else {
                Some(row.value)
            },
        )
    }) by {
        law_committed_write_is_read(before, after, written, key, lsn, reader);
    }
}

/// A commit shows nothing to an older snapshot: a transaction that read a row
/// before another one overwrote it reads the same after that one's commit, be it the
/// row that was overwritten or an older version of it. The undo record that the write
/// kept is among the pages that the reader reads.
pub proof fn law_commit_hides_from_older(
    begun: EmbeddedCompute,
    before: EmbeddedCompute,
    after: EmbeddedCompute,
    written: Set<Seq<u8>>,
    key: Seq<u8>,
    u: UndoPtr,
    lsn: u64,
    reader: EmbeddedTxn,
)
    requires
        written.contains(key),
        begun.tree.rows().contains_key(key),
        begun.tree.depth() < MAX_SCAN_LEAF_HOPS,
        after.tree.depth() < MAX_SCAN_LEAF_HOPS,
        !is_intent(begun.tree.rows()[key].meta.flags),
        reader.row_reads_alike(&begun, &after, key),
        reader.read_lsn < lsn,
        before.tree.rows().contains_key(key),
        before.tree.rows()[key].meta.undo_ptr == Some(u),
        u.page_id != 0,
        all_stamped(before.tree.rows(), after.tree.rows(), written, lsn, true),
        ({
            let m = reader.readable(&after);
            let old = begun.tree.rows()[key];
            &&& undo_here(m, u)
            &&& slot_readable(m[u.page_id], u.slot_id as int)
            &&& undo_at(m, u).old_commit_lsn == old.meta.commit_lsn
            &&& undo_at(m, u).old_flags == old.meta.flags
            &&& undo_at(m, u).old_value == old.value
            &&& undo_at(m, u).prev == old.meta.undo_ptr
        }),
    ensures
        reader.row_readable(&after, key),
        version_at(reader, after, key) == version_at(reader, begun, key),
{
    let old = begun.tree.rows()[key];
    let row = before.tree.rows()[key];
    let m = reader.readable(&after);
    law_commit_visibility(row, lsn, reader.undo_txn_id, reader.read_lsn);
    if old.meta.commit_lsn > reader.read_lsn {
        law_same_records_same_version(
            reader.readable(&begun),
            m,
            old.meta.undo_ptr,
            reader.read_lsn,
        );
    }
    law_overwritten_version_is_found(m, u, old.meta, old.value, reader.read_lsn);
    assert(after.tree.rows().dom().contains(key));
}

/// A commit shows nothing to an older snapshot: a row that was not there when a
/// transaction began is not there for it after another one put it in and committed.
pub proof fn law_commit_hides_new_row(
    begun: EmbeddedCompute,
    before: EmbeddedCompute,
    after: EmbeddedCompute,
    written: Set<Seq<u8>>,
    key: Seq<u8>,
    lsn: u64,
    reader: EmbeddedTxn,
)
    requires
        written.contains(key),
        !begun.tree.rows().contains_key(key),
        after.tree.depth() < MAX_SCAN_LEAF_HOPS,
        reader.read_lsn < lsn,
        before.tree.rows().contains_key(key),
        before.tree.rows()[key].meta.undo_ptr is None,
        all_stamped(before.tree.rows(), after.tree.rows(), written, lsn, true),
    ensures
        version_at(reader, after, key) == version_at(reader, begun, key),
{
    let row = before.tree.rows()[key];
    law_commit_visibility(row, lsn, reader.undo_txn_id, reader.read_lsn);
    lemma_version_none(reader.readable(&after), reader.read_lsn);
    assert(after.tree.rows().dom().contains(key));
}

/// A commit changes nothing for keys that its transaction did not write, if the undo
/// records that reading them takes read as before.
pub proof fn law_commit_keeps_other_rows(
    before: EmbeddedCompute,
    after: EmbeddedCompute,
    written: Set<Seq<u8>>,
    key: Seq<u8>,
    lsn: u64,
    reader: EmbeddedTxn,
)
    requires
        !written.contains(key),
        all_stamped(before.tree.rows(), after.tree.rows(), written, lsn, true),
        before.tree.depth() < MAX_SCAN_LEAF_HOPS,
        after.tree.depth() < MAX_SCAN_LEAF_HOPS,
        reader.row_reads_alike(&before, &after, key),
    ensures
        reader.row_readable(&after, key),
        version_at(reader, after, key) == version_at(reader, before, key),
{
    assert(after.tree.rows().dom().contains(key) == before.tree.rows().dom().contains(key));
    law_same_row_same_version(reader, before, after, key);
}

/// A list of pages put into storage: the listed pages are as listed, the others as
/// they were.
pub(crate) proof fn lemma_put_all(
    storage: Map<u64, Seq<u8>>,
    pages: Seq<(PageId, Page)>,
    n: int,
    m: Map<u64, Seq<u8>>,
    x: u64,
)
    requires
        0 <= n <= pages.len(),
        lists_pages(pages, m),
    ensures
        ({
            let after = put_all(storage, pages, n);
            let here = exists|i: int| 0 <= i < n && (#[trigger] pages[i]).0 == x;
            if here {
                after.contains_key(x) && after[x] == m[x]
            } else {
                after.contains_key(x) == storage.contains_key(x) && (storage.contains_key(x)
                    ==> after[x] == storage[x])
            }
        }),
    decreases n,
{
    if n > 0 {
        lemma_put_all(storage, pages, n - 1, m, x);
        let last = pages[n - 1];
        assert(m[last.0] == bytes_view(last.1));
        if last.0 != x && exists|i: int| 0 <= i < n && (#[trigger] pages[i]).0 == x {
            let i = choose|i: int| 0 <= i < n && (#[trigger] pages[i]).0 == x;
            assert(i < n - 1);
            assert(pages[i].0 == x);
        }
        if exists|i: int| 0 <= i < n - 1 && (#[trigger] pages[i]).0 == x {
            let i = choose|i: int| 0 <= i < n - 1 && (#[trigger] pages[i]).0 == x;
            assert(pages[i].0 < pages[n - 1].0);
        }
    }
}

/// Once the pages of a commit are stored, storage holds page `x` as the transaction's
/// list of tree pages has it, else as the transaction staged it, else as storage had it.
/// The meta page and the undo pages that the commit links are left out.
pub proof fn law_commit_stores_page(
    storage: Map<u64, Seq<u8>>,
    plan: CommitPlan,
    t: EmbeddedTxn,
    c: EmbeddedCompute,
    meta: MetaFields,
    x: PageId,
)
    requires
        plan_pages(plan, t, c, meta),
        x != META_PAGE_ID,
        t.undo.first_page_id matches Some(first) ==> first != x && meta.undo_history_tail != x,
    ensures
        ({
            let after = put_all(storage, plan.pages@, plan.pages@.len() as int);
            let list = page_views(t.bptree_dirty@);
            let staged = page_views(t.dirty@);
            if list.contains_key(x) {
                after.contains_key(x) && after[x] == list[x]
            } else if staged.contains_key(x) {
                after.contains_key(x) && after[x] == staged[x]
            } else {
                after.contains_key(x) == storage.contains_key(x) && (storage.contains_key(x)
                    ==> after[x] == storage[x])
            }
        }),
{
    let m = choose|m: Map<u64, Seq<u8>>| #[trigger]
        pages_from(m, plan, t, c, meta) && staged_in(m, &t, &c);
    let (m2, meta2, mb) = choose|m2: Map<u64, Seq<u8>>, meta2: MetaFields, mb: Seq<u8>|
        linked(
            m,
            c.pages(),
            page_views(t.ro_cache@),
            t.undo,
            with_tree(meta, &c),
            plan.request_id,
            plan.start_lsn,
            plan.end_lsn,
        ) == Some((m2, meta2)) && #[trigger] is_meta_page(mb, meta2) && #[trigger] lists_pages(
            plan.pages@,
            m2.insert(META_PAGE_ID, mb),
        );
    let all = m2.insert(META_PAGE_ID, mb);
    let n = plan.pages@.len() as int;
    let list = page_views(t.bptree_dirty@);
    let staged = page_views(t.dirty@);
    lemma_put_all(storage, plan.pages@, n, all, x);
    assert(m2.contains_key(x) == m.contains_key(x) && (m.contains_key(x) ==> m2[x] == m[x]));
    assert(t.dirty@.dom() =~= staged.dom());
    assert(m.dom().contains(x) == (staged.contains_key(x) || list.contains_key(x)));
    if m.contains_key(x) {
        assert(all.contains_key(x));
        let i = choose|i: int| 0 <= i < n && (#[trigger] plan.pages@[i]).0 == x;
        assert(plan.pages@[i].0 == x);
    } else {
        if exists|i: int| 0 <= i < n && (#[trigger] plan.pages@[i]).0 == x {
            let i = choose|i: int| 0 <= i < n && (#[trigger] plan.pages@[i]).0 == x;
            assert(all.contains_key(plan.pages@[i].0));
        }
    }
}

/// Once the pages of a commit are stored, the meta page in storage says which page is
/// the root of the tree and which id the tree gives out next.
pub proof fn law_commit_stores_meta(
    storage: Map<u64, Seq<u8>>,
    plan: CommitPlan,
    t: EmbeddedTxn,
    c: EmbeddedCompute,
    meta: MetaFields,
)
    requires
        plan_pages(plan, t, c, meta),
    ensures
        ({
            let after = put_all(storage, plan.pages@, plan.pages@.len() as int);
            &&& after.contains_key(META_PAGE_ID)
            &&& is_meta(after[META_PAGE_ID])
            &&& meta_of(after[META_PAGE_ID]).root_page_id == c.tree.provider.root()
            &&& meta_of(after[META_PAGE_ID]).next_bptree_page_id == c.tree.provider.next_id()
        }),
{
    let m = choose|m: Map<u64, Seq<u8>>| #[trigger]
        pages_from(m, plan, t, c, meta) && staged_in(m, &t, &c);
    let (m2, meta2, mb) = choose|m2: Map<u64, Seq<u8>>, meta2: MetaFields, mb: Seq<u8>|
        linked(
            m,
            c.pages(),
            page_views(t.ro_cache@),
            t.undo,
            with_tree(meta, &c),
            plan.request_id,
            plan.start_lsn,
            plan.end_lsn,
        ) == Some((m2, meta2)) && #[trigger] is_meta_page(mb, meta2) && #[trigger] lists_pages(
            plan.pages@,
            m2.insert(META_PAGE_ID, mb),
        );
    let all = m2.insert(META_PAGE_ID, mb);
    let n = plan.pages@.len() as int;
    lemma_put_all(storage, plan.pages@, n, all, META_PAGE_ID);
    assert(all.contains_key(META_PAGE_ID));
    let i = choose|i: int| 0 <= i < n && (#[trigger] plan.pages@[i]).0 == META_PAGE_ID;
    assert(plan.pages@[i].0 == META_PAGE_ID);
}

/// What committing does to a row: it gets the commit LSN and is no intent any more; its
/// value, its older versions and its other flags stay.
pub proof fn law_stamp_makes_row_committed(row: LeafRow, lsn: u64)
    ensures
        stamped(row, lsn, true).value == row.value,
        stamped(row, lsn, true).meta.commit_lsn == lsn,
        stamped(row, lsn, true).meta.flags & 2u16 == 0,
        stamped(row, lsn, true).meta.flags | 2u16 == row.meta.flags | 2u16,
        row.meta.undo_ptr is Some && row.meta.undo_ptr->0.page_id != 0 ==> stamped(
            row,
            lsn,
            true,
        ).meta.undo_ptr == row.meta.undo_ptr,
        row.meta.undo_ptr is None ==> stamped(row, lsn, true).meta.undo_ptr is None,
        stamped(row, lsn, true).meta.intent_txn_id == 0,
        stamped(row, lsn, true).meta.intent_lsn == 0,
        stamped(row, lsn, false).value == row.value,
        stamped(row, lsn, false).meta.commit_lsn == lsn,
        stamped(row, lsn, false).meta.flags == row.meta.flags,
        stamped(row, lsn, false).meta.intent_txn_id == row.meta.intent_txn_id,
        stamped(row, lsn, false).meta.intent_lsn == row.meta.intent_lsn,
        row.meta.undo_ptr is Some && row.meta.undo_ptr->0.page_id != 0 ==> stamped(
            row,
            lsn,
            false,
        ).meta.undo_ptr == row.meta.undo_ptr,
{
    let a = row.meta.flags;
    assert((a & !2u16) & 2u16 == 0 && (a & !2u16) | 2u16 == a | 2u16) by (bit_vector);
}

/// A commit is refused at the first row that is not the transaction's intent: all rows
/// before it are there, have the intent bit and carry the transaction's id.
pub proof fn law_first_lost_row(
    rows: Map<Seq<u8>, LeafRow>,
    ks: Seq<Vec<u8>>,
    id: u64,
    i: int,
)
    requires
        0 <= i <= ks.len(),
    ensures
        i <= first_lost(rows, ks, id, i) <= ks.len(),
        forall|j: int|
            i <= j < first_lost(rows, ks, id, i) ==> {
                let k = #[trigger] ks[j]@;
                rows.contains_key(k) && rows[k].meta.flags & 2u16 != 0 && rows[k].meta.intent_txn_id
                    == id
            },
        first_lost(rows, ks, id, i) < ks.len() ==> {
            let k = ks[first_lost(rows, ks, id, i)]@;
            !rows.contains_key(k) || rows[k].meta.flags & 2u16 == 0 || rows[k].meta.intent_txn_id
                != id
        },
    decreases ks.len() - i,
{
    if i < ks.len() && owned(rows, ks[i]@, id) {
        law_first_lost_row(rows, ks, id, i + 1);
    }
}

/// A committed undo segment is put behind the last one of the history: its header says
/// whose it is, from which LSN to which, and that it is committed; the last segment so far
/// points to it and it points back; the history now ends with it, and begins with it if it
/// was empty. Pages of neither stay as they were, and so does the rest of the meta page.
pub proof fn law_segment_joins_history(
    m: Map<u64, Seq<u8>>,
    cache: Map<u64, Seq<u8>>,
    ro: Map<u64, Seq<u8>>,
    seg: UndoSegment,
    meta: MetaFields,
    request_id: u64,
    start_lsn: u64,
    end_lsn: u64,
)
    requires
        seg.first_page_id is Some,
        seg.first_page_id->0 != meta.undo_history_tail,
        linked(m, cache, ro, seg, meta, request_id, start_lsn, end_lsn) is Some,
    ensures
        ({
            let (m2, meta2) = linked(
                m,
                cache,
                ro,
                seg,
                meta,
                request_id,
                start_lsn,
                end_lsn,
            )->0;
            let first = seg.first_page_id->0;
            let tail = meta.undo_history_tail;
            let h = segment_header_of(m2[first]);
            &&& m2.contains_key(first)
            &&& h.txn_id == request_id
            &&& h.begin_lsn == start_lsn
            &&& h.commit_lsn == end_lsn
            &&& h.state == 1
            &&& h.first_page_id == first
            &&& seg.last_page_id is Some ==> h.last_page_id == seg.last_page_id->0
            &&& h.record_count == seg.record_count
            &&& h.history_prev == tail
            &&& h.history_next == 0
            &&& tail != 0 ==> m2.contains_key(tail) && segment_header_of(m2[tail]).history_next
                == first
            &&& tail != 0 && m.contains_key(tail) ==> segment_header_of(m2[tail]) == (
            UndoSegmentHeader { history_next: first, ..segment_header_of(m[tail]) })
            &&& forall|x: u64| #[trigger]
                m.contains_key(x) && x != first && x != tail ==> m2.contains_key(x) && m2[x] == m[x]
            &&& meta2.undo_history_tail == first
            &&& meta2.undo_history_head == (if tail == 0 {
                first
            } else {
                meta.undo_history_head
            })
            &&& meta2.undo_free == meta.undo_free
            &&& meta2.root_page_id == meta.root_page_id
            &&& meta2.next_bptree_page_id == meta.next_bptree_page_id
            &&& meta2.next_data_page_id == meta.next_data_page_id
            &&& meta2.next_undo_page_id == meta.next_undo_page_id
        }),
{
    let first = seg.first_page_id->0;
    let head = first_of(m, cache, Map::empty(), first)->0;
    let tail_id = meta.undo_history_tail;
    let hdr = committed_header(seg, request_id, start_lsn, end_lsn, tail_id);
    law_segment_header_round_trip(head, hdr);
    let m1 = m.insert(first, with_segment_header(head, hdr));
    if tail_id != 0 {
        let tail = first_of(m1, cache, ro, tail_id)->0;
        let th = UndoSegmentHeader { history_next: first, ..segment_header_of(tail) };
        law_segment_header_round_trip(tail, th);
    }
}

/// A plan is refused at the first page that has not 16384 bytes.
pub proof fn law_first_page_of_wrong_size(pages: Seq<(PageId, Page)>, i: int)
    requires
        0 <= i <= pages.len(),
    ensures
        i <= first_bad_size(pages, i) <= pages.len(),
        forall|j: int|
            i <= j < first_bad_size(pages, i) ==> bytes_view((#[trigger] pages[j]).1).len()
                == 16384,
        first_bad_size(pages, i) < pages.len() ==> bytes_view(
            pages[first_bad_size(pages, i)].1,
        ).len() != 16384,
    decreases pages.len() - i,
{
    if i < pages.len() && bytes_view(pages[i].1).len() == 16384 {
        law_first_page_of_wrong_size(pages, i + 1);
    }
}

/// A transaction counts as having written if it tried to, or staged a page, or wrote a tree
/// page or a row.
pub proof fn law_what_counts_as_writing(t: EmbeddedTxn)
    ensures
        !wrote(&t) <==> !t.write_attempted && t.dirty@.len() == 0 && t.bptree_dirty@.len() == 0
            && t.modified.keys@.len() == 0,
{
}

/// The meta page of a commit says where the tree has its root now and which page it takes
/// next; the rest is as it was.
pub proof fn law_meta_page_follows_tree(m: MetaFields, c: EmbeddedCompute)
    ensures
        with_tree(m, &c).root_page_id == c.tree.provider.root(),
        with_tree(m, &c).next_bptree_page_id == c.tree.provider.next_page_id,
        with_tree(m, &c).next_data_page_id == m.next_data_page_id,
        with_tree(m, &c).next_undo_page_id == m.next_undo_page_id,
        with_tree(m, &c).undo_free == m.undo_free,
        with_tree(m, &c).undo_history_head == m.undo_history_head,
        with_tree(m, &c).undo_history_tail == m.undo_history_tail,
{
}

/// Committing stamps the rows of the transaction's keys with the commit LSN, takes the
/// intent bit from them and keeps their values; it touches no other row, and none comes
/// or goes.
pub proof fn law_commit_stamps_own_rows(
    before: Map<Seq<u8>, LeafRow>,
    after: Map<Seq<u8>, LeafRow>,
    ks: Set<Seq<u8>>,
    lsn: u64,
    k: Seq<u8>,
)
    requires
        all_stamped(before, after, ks, lsn, true),
    ensures
        after.contains_key(k) == before.contains_key(k),
        before.contains_key(k) ==> after[k].value == before[k].value,
        before.contains_key(k) && ks.contains(k) ==> after[k].meta.commit_lsn == lsn
            && after[k].meta.flags & 2u16 == 0 && after[k].meta.flags & 1u16 == before[k].meta.flags
            & 1u16,
        before.contains_key(k) && !ks.contains(k) ==> after[k] == before[k],
{
    assert(after.dom().contains(k) == before.dom().contains(k));
    if before.contains_key(k) && ks.contains(k) {
        let a = before[k].meta.flags;
        assert((a & !2u16) & 2u16 == 0 && (a & !2u16) & 1u16 == a & 1u16) by (bit_vector);
    }
}

/// The ids that a commit has LSNs for: those of the staged pages, of the first page of its
/// undo segment, and of the meta page.
pub proof fn law_commit_ids(t: EmbeddedTxn, x: u64)
    ensures
        staged_ids(&t).contains(x) <==> t.dirty@.contains_key(x) || t.undo.first_page_id == Some(x)
            || x == 0,
{
}

/// A commit stages the last page of the history, to link it, only if the transaction has
/// undo records and the history is not empty; every page that was staged stays as it was.
pub proof fn law_history_end_is_staged(t: EmbeddedTxn, c: EmbeddedCompute)
    ensures
        ({
            let d = page_views(t.dirty@);
            let tail = commit_meta_of(&t, &c)->0.undo_history_tail;
            let staged = tail_staged(&t, &c);
            &&& t.undo.first_page_id is None ==> staged == d
            &&& tail == 0 ==> staged == d
            &&& t.undo.first_page_id is Some && tail != 0 ==> staged.dom() == d.dom().insert(tail)
            &&& forall|x: u64| #[trigger]
                d.contains_key(x) ==> staged.contains_key(x) && staged[x] == d[x]
            &&& t.undo.first_page_id is Some && tail != 0 && !d.contains_key(tail)
                && c.pages().contains_key(tail) ==> staged[tail] == c.pages()[tail]
        }),
{
    let d = page_views(t.dirty@);
    let tail = commit_meta_of(&t, &c)->0.undo_history_tail;
    if t.undo.first_page_id is Some && tail != 0 {
        assert(tail_staged(&t, &c).dom() =~= d.dom().insert(tail));
    }
}

} // verus!
