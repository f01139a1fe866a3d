//! Taking back what a transaction meant to write.
use vstd::prelude::*;

use super::page_map::find_page;
use super::soundness::{law_resolve_keeps_sound, sound};
use super::txn::{EmbeddedCompute, EmbeddedTxn};
use super::visibility::{is_intent, undo_at, undo_here, FLAG_INTENT};
use crate::common::{page_bytes, Error, Result};
use crate::key_order::is_key;
use crate::key_set::{key_in, lemma_keys_distinct, KeySet};
use crate::layout::copy_bytes;
use crate::page_bptree::node_page::{stored_undo_ptr, LeafRow, LeafValue, LeafValueMeta};
use crate::page_bptree::provider::AsyncPageProvider;
use crate::page_bptree::shape::well_shaped;
use crate::page_bptree::tree::lemma_shallow;
use crate::undo_pg::{read_record, slot_readable, unreadable, UndoFields, UndoPtr};

verus! {

/// What following undo records past intents leads to.
pub enum Base {
    /// No record.
    End,
    Missing(u64),
    Unreadable(UndoPtr),
    /// A version that was committed.
    Record(UndoFields),
}

/// Following the records from `p` past intents ends after at most `n` of them.
pub open spec fn base_ends(m: Map<u64, Seq<u8>>, p: Option<UndoPtr>, n: nat) -> bool
    decreases n,
{
    match p {
        None => true,
        Some(u) => {
            &&& n > 0
            &&& m.contains_key(u.page_id) ==> slot_readable(m[u.page_id], u.slot_id as int)
            &&& undo_here(m, u) && is_intent(undo_at(m, u).old_flags as u16) ==> base_ends(
                m,
                undo_at(m, u).prev,
                (n - 1) as nat,
            )
        },
    }
}

pub open spec fn base_finite(m: Map<u64, Seq<u8>>, p: Option<UndoPtr>) -> bool {
    exists|n: nat| #[trigger] base_ends(m, p, n)
}

/// What at most `n` records from `p` on lead to.
pub open spec fn base_within(m: Map<u64, Seq<u8>>, p: Option<UndoPtr>, n: nat) -> Base
    decreases n,
{
    match p {
        None => Base::End,
        Some(u) => if n == 0 {
            Base::End
        } else if !m.contains_key(u.page_id) {
            Base::Missing(u.page_id)
        } else if !undo_here(m, u) {
            Base::Unreadable(u)
        } else if is_intent(undo_at(m, u).old_flags as u16) {
            base_within(m, undo_at(m, u).prev, (n - 1) as nat)
        } else {
            Base::Record(undo_at(m, u))
        },
    }
}

/// What the records from `p` on lead to.
pub open spec fn base_of(m: Map<u64, Seq<u8>>, p: Option<UndoPtr>) -> Base {
    base_within(m, p, choose|n: nat| #[trigger] base_ends(m, p, n))
}

proof fn lemma_base_unique(m: Map<u64, Seq<u8>>, p: Option<UndoPtr>, a: nat, b: nat)
    requires
        base_ends(m, p, a),
        base_ends(m, p, b),
    ensures
        base_within(m, p, a) == base_within(m, p, b),
    decreases a,
{
    match p {
        None => {},
        Some(u) => {
            if undo_here(m, u) && is_intent(undo_at(m, u).old_flags as u16) {
                lemma_base_unique(m, undo_at(m, u).prev, (a - 1) as nat, (b - 1) as nat);
            }
        },
    }
}

pub(crate) proof fn lemma_base_step(m: Map<u64, Seq<u8>>, u: UndoPtr)
    requires
        base_finite(m, Some(u)),
    ensures
        m.contains_key(u.page_id) ==> slot_readable(m[u.page_id], u.slot_id as int),
        ({
            let b = base_of(m, Some(u));
            if !m.contains_key(u.page_id) {
                b == Base::Missing(u.page_id)
            } else if !undo_here(m, u) {
                b == Base::Unreadable(u)
            } else if is_intent(undo_at(m, u).old_flags as u16) {
                base_finite(m, undo_at(m, u).prev) && b == base_of(m, undo_at(m, u).prev)
            } else {
                b == Base::Record(undo_at(m, u))
            }
        }),
{
    let n = choose|n: nat| #[trigger] base_ends(m, Some(u), n);
    assert(base_ends(m, Some(u), n));
    if undo_here(m, u) && is_intent(undo_at(m, u).old_flags as u16) {
        let prev = undo_at(m, u).prev;
        assert(base_ends(m, prev, (n - 1) as nat));
        let k = choose|k: nat| #[trigger] base_ends(m, prev, k);
        lemma_base_unique(m, prev, (n - 1) as nat, k);
    }
}

/// What becomes of a row when a transaction's intents are taken back.
pub enum Resolution {
    Keep,
    Remove,
    Put(LeafRow),
    Fail,
}

/// The row that an undo record kept.
pub open spec fn kept_row(f: UndoFields) -> LeafRow {
    LeafRow {
        value: f.old_value,
        meta: LeafValueMeta {
            commit_lsn: f.old_commit_lsn as u64,
            undo_ptr: stored_undo_ptr(f.prev),
            flags: f.old_flags as u16 & !FLAG_INTENT,
            intent_txn_id: 0,
            intent_lsn: 0,
        },
    }
}

/// What becomes of a row: an intent of the transaction gives way to the last
/// committed version, or goes when there is none.
pub open spec fn resolution(m: Map<u64, Seq<u8>>, row: Option<LeafRow>, txn_id: u64) -> Resolution {
    match row {
        None => Resolution::Keep,
        Some(cur) => if !is_intent(cur.meta.flags) || cur.meta.intent_txn_id != txn_id {
            Resolution::Keep
        } else {
            match base_of(m, cur.meta.undo_ptr) {
                Base::End => if cur.meta.undo_ptr is None {
                    Resolution::Remove
                } else {
                    Resolution::Keep
                },
                Base::Record(f) => if f.old_commit_lsn == 0 && f.prev is None {
                    Resolution::Remove
                } else {
                    Resolution::Put(kept_row(f))
                },
                _ => Resolution::Fail,
            }
        },
    }
}

/// The error of a row that cannot be resolved.
pub open spec fn resolve_error<T>(m: Map<u64, Seq<u8>>, row: Option<LeafRow>, r: Result<T>) -> bool {
    row matches Some(cur) && match base_of(m, cur.meta.undo_ptr) {
        Base::Missing(id) => r matches Err(Error::InMemoryPageMissing(x)) && x == id,
        Base::Unreadable(u) => unreadable(m[u.page_id], u.slot_id as int, r),
        _ => false,
    }
}

/// The first of the keys from `i` on whose row cannot be resolved.
pub open spec fn first_unresolved(
    rows: Map<Seq<u8>, LeafRow>,
    m: Map<u64, Seq<u8>>,
    ks: Seq<Vec<u8>>,
    txn_id: u64,
    i: int,
) -> int
    decreases ks.len() - i,
{
    if i >= ks.len() || resolution(m, row_in(rows, ks[i]@), txn_id) is Fail {
        i
    } else {
        first_unresolved(rows, m, ks, txn_id, i + 1)
    }
}

/// What taking back an intent needs: following its undo records ends.
pub open spec fn resolvable(m: Map<u64, Seq<u8>>, row: Option<LeafRow>) -> bool {
    row matches Some(cur) ==> base_finite(m, cur.meta.undo_ptr)
}

/// The rows after one row was resolved.
pub open spec fn rows_resolved(
    rows: Map<Seq<u8>, LeafRow>,
    key: Seq<u8>,
    x: Resolution,
) -> Map<Seq<u8>, LeafRow> {
    match x {
        Resolution::Remove => rows.remove(key),
        Resolution::Put(row) => rows.insert(key, row),
        _ => rows,
    }
}

impl EmbeddedCompute {
    /// The last committed version that the undo records from `undo` on lead to.
    fn find_base(&self, undo: Option<UndoPtr>) -> (r: Result<Option<crate::undo_pg::UndoRecord>>)
        requires
            base_finite(self.pages(), undo),
        ensures
            match base_of(self.pages(), undo) {
                Base::End => r matches Ok(None),
                Base::Missing(id) => r matches Err(Error::InMemoryPageMissing(x)) && x == id,
                Base::Unreadable(u) => unreadable(
                    self.pages()[u.page_id],
                    u.slot_id as int,
                    r,
                ),
                Base::Record(f) => r matches Ok(Some(rec)) && rec@ == f,
            },
    {
        let ghost m = self.pages();
        let ghost mut n: nat = choose|n: nat| #[trigger] base_ends(m, undo, n);
        let mut cur: Option<UndoPtr> = undo;
        loop
            invariant
                m == self.pages(),
                base_ends(m, cur, n),
                base_finite(m, cur),
                base_of(m, cur) == base_of(m, undo),
            decreases n,
        {
            match cur {
                None => {
                    assert(base_ends(m, None, 0));
                    return Ok(None);
                },
                Some(ptr) => {
                    proof {
                        lemma_base_step(m, ptr);
                    }
                    let page = match find_page(&self.page_cache, ptr.page_id) {
                        Some(p) => p,
                        None => {
                            return Err(Error::InMemoryPageMissing(ptr.page_id));
                        },
                    };
                    let rec = match read_record(page_bytes(&page), ptr.slot_id) {
                        Ok(rec) => rec,
                        Err(e) => {
                            return Err(e);
                        },
                    };
                    assert(rec@ == undo_at(m, ptr));
                    if (rec.old_flags & FLAG_INTENT) == 0 {
                        return Ok(Some(rec));
                    }
                    cur = rec.prev;
                    proof {
                        n = (n - 1) as nat;
                    }
                },
            }
        }
    }

    /// Takes back a transaction's intent on one row.
    fn resolve_intent(&mut self, txn_id: u64, key: &[u8]) -> (r: Result<()>)
        requires
            old(self).wf(),
            old(self).has_room(),
            is_key(key@),
            resolvable(old(self).pages(), old(self).row(key@)),
        ensures
            final(self).wf(),
            final(self).same_but_tree(old(self)),
            final(self).tree.depth() <= old(self).tree.depth() + 1,
            final(self).tree.provider.next_id() <= old(self).tree.provider.next_id() + old(
                self,
            ).tree.depth() + 3,
            final(self).tree.len <= old(self).tree.len + 1,
            well_shaped(old(self).tree.tree()) ==> well_shaped(final(self).tree.tree()),
            ({
                let x = resolution(old(self).pages(), old(self).row(key@), txn_id);
                &&& if x is Fail {
                    resolve_error(old(self).pages(), old(self).row(key@), r)
                } else {
                    r is Ok
                }
                &&& final(self).tree.rows() == rows_resolved(old(self).tree.rows(), key@, x)
            }),
    {
        let cur = match self.tree.get(key) {
            Some(c) => c,
            None => {
                return Ok(());
            },
        };
        if (cur.meta.flags & FLAG_INTENT) == 0 || cur.meta.intent_txn_id != txn_id {
            return Ok(());
        }
        match self.find_base(cur.meta.undo_ptr) {
            Err(e) => Err(e),
            Ok(None) => {
                if cur.meta.undo_ptr.is_none() {
                    self.tree.remove(key)
                } else {
                    Ok(())
                }
            },
            Ok(Some(rec)) => {
                if rec.old_commit_lsn == 0 && rec.prev.is_none() {
                    return self.tree.remove(key);
                }
                let row = LeafValue {
                    value: rec.old_value,
                    commit_lsn: rec.old_commit_lsn,
                    undo_ptr: rec.prev,
                    flags: rec.old_flags & !FLAG_INTENT,
                    intent_txn_id: 0,
                    intent_lsn: 0,
                };
                assert(row.row() == kept_row(rec@));
                self.tree.insert(copy_bytes(key), row)
            },
        }
    }

    /// Takes back a transaction's intents on the rows that it meant to write.
    pub fn resolve_txn_intents(&mut self, txn_id: u64, keys: &KeySet) -> (r: Result<()>)
        requires
            old(self).wf(),
            keys.wf(),
            forall|k: Seq<u8>| #[trigger] keys@.contains(k) ==> is_key(k) && resolvable(
                old(self).pages(),
                row_in(old(self).tree.rows(), k),
            ),
            super::commit::can_take(old(self), keys.keys@.len() as int),
            old(self).tree.shallow_for(keys.keys@.len() as int),
        ensures
            final(self).wf(),
            final(self).same_but_tree(old(self)),
            forall|floor: u64| #[trigger] sound(old(self), floor) ==> sound(final(self), floor),
            ({
                let rows = old(self).tree.rows();
                let m = old(self).pages();
                let ks = keys.keys@;
                let i = first_unresolved(rows, m, ks, txn_id, 0);
                if i < ks.len() {
                    &&& resolve_error(m, row_in(rows, ks[i]@), r)
                    &&& all_resolved(
                        rows,
                        final(self).tree.rows(),
                        m,
                        super::commit::keys_until(ks, i),
                        txn_id,
                    )
                } else {
                    &&& r is Ok
                    &&& all_resolved(rows, final(self).tree.rows(), m, keys@, txn_id)
                }
            }),
    {
        let ghost rows0 = self.tree.rows();
        let ghost m = self.pages();
        let ghost ks = keys.keys@;
        let ghost d0 = self.tree.depth();
        let ghost n0 = self.tree.provider.next_id();
        let ghost l0 = self.tree.len;
        let n: usize = keys.keys.len();
        let mut i: usize = 0;
        proof {
            lemma_keys_distinct(ks);
        }
        while i < n
            invariant
                ks == keys.keys@,
                n == ks.len(),
                i <= n,
                self.wf(),
                self.same_but_tree(old(self)),
                m == old(self).pages(),
                rows0 == old(self).tree.rows(),
                self.tree.shallow_for(n - i),
                n0 + n * (d0 + n + 3) <= u64::MAX,
                l0 + n <= u64::MAX,
                self.tree.depth() <= d0 + i,
                self.tree.provider.next_id() <= n0 + i * (d0 + n + 3),
                self.tree.len <= l0 + i,
                forall|k: Seq<u8>| #[trigger] keys@.contains(k) ==> is_key(k) && resolvable(
                    m,
                    row_in(rows0, k),
                ),
                forall|a: int, b: int|
                    0 <= a < ks.len() && 0 <= b < ks.len() && a != b ==> #[trigger] ks[a]@
                        != #[trigger] ks[b]@,
                all_resolved(
                    rows0,
                    self.tree.rows(),
                    m,
                    super::commit::keys_until(ks, i as int),
                    txn_id,
                ),
                first_unresolved(rows0, m, ks, txn_id, 0) == first_unresolved(
                    rows0,
                    m,
                    ks,
                    txn_id,
                    i as int,
                ),
            decreases n - i,
        {
            let key = keys.keys[i].as_slice();
            let ghost k = ks[i as int]@;
            let ghost mid = self.tree.rows();
            let ghost done = super::commit::keys_until(ks, i as int);
            proof {
                assert(key_in(ks, k));
                assert(keys@.contains(k));
                assert(!done.contains(k));
                lemma_shallow(&self.tree, n - i);
                super::commit::lemma_ids_left(
                    n0,
                    d0 as int,
                    n as int,
                    i as int,
                    self.tree.provider.next_id(),
                    self.tree.depth() as int,
                );
                assert(row_in(mid, k) == row_in(rows0, k));
                assert(self.row(k) == row_in(rows0, k));
            }
            match self.resolve_intent(txn_id, key) {
                Ok(()) => {},
                Err(e) => {
                    assert(self.tree.rows() == mid);
                    proof {
                        lemma_resolved_is_sound(*old(self), *self, done, txn_id);
                    }
                    return Err(e);
                },
            }
            proof {
                let after = self.tree.rows();
                let done2 = super::commit::keys_until(ks, i + 1);
                assert forall|x: Seq<u8>| #[trigger] row_in(after, x) == (if done2.contains(x) {
                    row_after(rows0, m, x, txn_id)
                } else {
                    row_in(rows0, x)
                }) by {
                    if x == k {
                        assert(ks[i as int]@ == x);
                        assert(done2.contains(x));
                    } else {
                        assert(row_in(after, x) == row_in(mid, x));
                        if done2.contains(x) {
                            let j = choose|j: int| 0 <= j < i + 1 && #[trigger] ks[j]@ == x;
                            assert(j < i);
                            assert(done.contains(x));
                        } else if done.contains(x) {
                            let j = choose|j: int| 0 <= j < i as int && #[trigger] ks[j]@ == x;
                            assert(j < i + 1);
                        }
                    }
                }
            }
            i += 1;
        }
        proof {
            assert(super::commit::keys_until(ks, n as int) =~= keys@) by {
                assert forall|x: Seq<u8>| super::commit::keys_until(ks, n as int).contains(x)
                    <==> keys@.contains(x) by {
                    if keys@.contains(x) {
                        let j = choose|j: int| 0 <= j < ks.len() && #[trigger] ks[j]@ == x;
                        assert(ks[j]@ == x);
                    }
                }
            }
            lemma_resolved_is_sound(*old(self), *self, keys@, txn_id);
        }
        Ok(())
    }
}

/// Taking back intents leaves the engine sound, down to any LSN.
proof fn lemma_resolved_is_sound(
    c0: EmbeddedCompute,
    c1: EmbeddedCompute,
    ks: Set<Seq<u8>>,
    txn_id: u64,
)
    requires
        c1.page_cache == c0.page_cache,
        all_resolved(c0.tree.rows(), c1.tree.rows(), c0.pages(), ks, txn_id),
    ensures
        forall|floor: u64| #[trigger] sound(&c0, floor) ==> sound(&c1, floor),
{
    assert forall|floor: u64| #[trigger] sound(&c0, floor) implies sound(&c1, floor) by {
        law_resolve_keeps_sound(c0, c1, ks, txn_id, floor);
    }
}

/// The row of a key, if there is one.
pub open spec fn row_in(rows: Map<Seq<u8>, LeafRow>, k: Seq<u8>) -> Option<LeafRow> {
    if rows.contains_key(k) {
        Some(rows[k])
    } else {
        None
    }
}

/// The row of a key after it was resolved.
pub open spec fn row_after(
    rows: Map<Seq<u8>, LeafRow>,
    m: Map<u64, Seq<u8>>,
    k: Seq<u8>,
    txn_id: u64,
) -> Option<LeafRow> {
    match resolution(m, row_in(rows, k), txn_id) {
        Resolution::Remove => None,
        Resolution::Put(row) => Some(row),
        _ => row_in(rows, k),
    }
}

/// The rows of the keys in `ks` are resolved, the others are as they were.
pub open spec fn all_resolved(
    before: Map<Seq<u8>, LeafRow>,
    after: Map<Seq<u8>, LeafRow>,
    m: Map<u64, Seq<u8>>,
    ks: Set<Seq<u8>>,
    txn_id: u64,
) -> bool {
    forall|k: Seq<u8>| #[trigger]
        row_in(after, k) == (if ks.contains(k) {
            row_after(before, m, k, txn_id)
        } else {
            row_in(before, k)
        })
}

impl EmbeddedTxn {
    /// Takes everything back that the transaction meant to write, and ends it.
    pub fn abort(&mut self, compute: &mut EmbeddedCompute) -> (r: Result<()>)
        requires
            old(self).wf(),
            old(compute).wf(),
            super::commit::can_take(old(compute), old(self).modified.keys@.len() as int),
            old(compute).tree.shallow_for(old(self).modified.keys@.len() as int),
            forall|k: Seq<u8>| #[trigger] old(self).modified@.contains(k) ==> resolvable(
                old(compute).pages(),
                row_in(old(compute).tree.rows(), k),
            ),
        ensures
            final(compute).wf(),
            *final(self) == (EmbeddedTxn { guard: None, ..*old(self) }),
            final(compute).active_reads.reads() == (match old(self).guard {
                Some(g) => old(compute).active_reads.reads().remove(g.id),
                None => old(compute).active_reads.reads(),
            }),
            final(compute).page_cache == old(compute).page_cache,
            forall|floor: u64| #[trigger] sound(old(compute), floor) ==> sound(final(compute), floor),
            if old(self).read_only {
                &&& r is Ok
                &&& final(compute).tree == old(compute).tree
                &&& final(compute).registry == old(compute).registry
            } else {
                let rows = old(compute).tree.rows();
                let m = old(compute).pages();
                let id = old(self).undo_txn_id->0;
                let ks = old(self).modified.keys@;
                let i = first_unresolved(rows, m, ks, id, 0);
                &&& final(compute).registry.txns@ == old(compute).registry.txns@.remove(id)
                &&& if i < ks.len() {
                    &&& resolve_error(m, row_in(rows, ks[i]@), r)
                    &&& all_resolved(
                        rows,
                        final(compute).tree.rows(),
                        m,
                        super::commit::keys_until(ks, i),
                        id,
                    )
                } else {
                    &&& r is Ok
                    &&& all_resolved(
                        rows,
                        final(compute).tree.rows(),
                        m,
                        old(self).modified@,
                        id,
                    )
                }
            },
    {
        if self.read_only {
            self.release(compute);
            return Ok(());
        }
        let id: u64 = self.undo_txn_id.unwrap();
        let r = compute.resolve_txn_intents(id, &self.modified);
        let _ = compute.registry.remove_pending_txn(id);
        self.release(compute);
        r
    }
}

/// Taking back a write gives the row back as it was committed: an intent whose
/// undo record kept a committed version gives way to that version.
pub proof fn law_abort_restores_committed_row(
    m: Map<u64, Seq<u8>>,
    old: LeafRow,
    intent: LeafRow,
    u: UndoPtr,
    txn_id: u64,
)
    requires
        is_intent(intent.meta.flags),
        intent.meta.intent_txn_id == txn_id,
        intent.meta.undo_ptr == Some(u),
        undo_here(m, u),
        slot_readable(m[u.page_id], u.slot_id as int),
        undo_at(m, u).old_commit_lsn == old.meta.commit_lsn,
        undo_at(m, u).old_flags == old.meta.flags,
        undo_at(m, u).old_value == old.value,
        undo_at(m, u).prev == old.meta.undo_ptr,
        !is_intent(old.meta.flags),
        old.meta.commit_lsn > 0,
        old.meta.intent_txn_id == 0,
        old.meta.intent_lsn == 0,
        stored_undo_ptr(old.meta.undo_ptr) == old.meta.undo_ptr,
    ensures
        resolution(m, Some(intent), txn_id) == Resolution::Put(old),
{
    assert(base_ends(m, Some(u), 1));
    lemma_base_step(m, u);
    let f = old.meta.flags;
    assert(f & 2u16 == 0 ==> f & !2u16 == f) by (bit_vector);
    assert(kept_row(undo_at(m, u)) =~= old);
}

/// The row that an undo record kept comes back as it was: its value, its commit LSN, its
/// flags but for the intent bit, its older versions; it is no intent any more.
pub proof fn law_kept_row_comes_back(f: UndoFields)
    requires
        0 <= f.old_commit_lsn <= u64::MAX,
        0 <= f.old_flags <= u16::MAX,
    ensures
        kept_row(f).value == f.old_value,
        kept_row(f).meta.commit_lsn == f.old_commit_lsn,
        kept_row(f).meta.flags & 2u16 == 0,
        kept_row(f).meta.flags | 2u16 == f.old_flags as u16 | 2u16,
        f.prev is Some && f.prev->0.page_id != 0 ==> kept_row(f).meta.undo_ptr == f.prev,
        f.prev is None ==> kept_row(f).meta.undo_ptr is None,
        kept_row(f).meta.intent_txn_id == 0,
        kept_row(f).meta.intent_lsn == 0,
{
    let a = f.old_flags as u16;
    assert((a & !2u16) & 2u16 == 0 && (a & !2u16) | 2u16 == a | 2u16) by (bit_vector);
}

/// Only an intent of the transaction is taken back: a row that is none, or that is one of
/// another transaction, stays, and so does a row that is not there. An intent with no
/// version before it goes.
pub proof fn law_only_own_intents_resolve(
    m: Map<u64, Seq<u8>>,
    row: Option<LeafRow>,
    txn_id: u64,
)
    ensures
        row is None ==> resolution(m, row, txn_id) is Keep,
        row is Some && (row->0.meta.flags & 2u16 == 0 || row->0.meta.intent_txn_id != txn_id)
            ==> resolution(m, row, txn_id) is Keep,
        row is Some && row->0.meta.flags & 2u16 != 0 && row->0.meta.intent_txn_id == txn_id
            && row->0.meta.undo_ptr is None ==> resolution(m, row, txn_id) is Remove,
{
    if row is Some && row->0.meta.undo_ptr is None {
        assert(base_ends(m, None, 0));
    }
}

/// An intent whose first undo record keeps a committed version gives way to just that
/// version.
pub proof fn law_intent_gives_way(m: Map<u64, Seq<u8>>, row: LeafRow, u: UndoPtr, txn_id: u64)
    requires
        row.meta.flags & 2u16 != 0,
        row.meta.intent_txn_id == txn_id,
        row.meta.undo_ptr == Some(u),
        undo_here(m, u),
        slot_readable(m[u.page_id], u.slot_id as int),
        undo_at(m, u).old_flags as u16 & 2u16 == 0,
        undo_at(m, u).old_commit_lsn != 0,
    ensures
        resolution(m, Some(row), txn_id) == Resolution::Put(kept_row(undo_at(m, u))),
{
    assert(base_ends(m, Some(u), 1));
    lemma_base_step(m, u);
}

/// Resolving stops at the first key whose row cannot be resolved.
pub proof fn law_first_unresolved(
    rows: Map<Seq<u8>, LeafRow>,
    m: Map<u64, Seq<u8>>,
    ks: Seq<Vec<u8>>,
    txn_id: u64,
    i: int,
)
    requires
        0 <= i <= ks.len(),
    ensures
        i <= first_unresolved(rows, m, ks, txn_id, i) <= ks.len(),
        forall|j: int|
            i <= j < first_unresolved(rows, m, ks, txn_id, i) ==> !(resolution(
                m,
                row_in(rows, #[trigger] ks[j]@),
                txn_id,
            ) is Fail),
        first_unresolved(rows, m, ks, txn_id, i) < ks.len() ==> resolution(
            m,
            row_in(rows, ks[first_unresolved(rows, m, ks, txn_id, i)]@),
            txn_id,
        ) is Fail,
    decreases ks.len() - i,
{
    if i < ks.len() && !(resolution(m, row_in(rows, ks[i]@), txn_id) is Fail) {
        law_first_unresolved(rows, m, ks, txn_id, i + 1);
    }
}

/// Taking back a transaction's intents touches no other row: neither one under another
/// key, nor one that is no intent, nor one that is an intent of another transaction.
pub proof fn law_resolving_leaves_other_rows(
    before: Map<Seq<u8>, LeafRow>,
    after: Map<Seq<u8>, LeafRow>,
    m: Map<u64, Seq<u8>>,
    ks: Set<Seq<u8>>,
    txn_id: u64,
    k: Seq<u8>,
)
    requires
        all_resolved(before, after, m, ks, txn_id),
        !ks.contains(k) || !before.contains_key(k) || before[k].meta.flags & 2u16 == 0
            || before[k].meta.intent_txn_id != txn_id,
    ensures
        after.contains_key(k) == before.contains_key(k),
        before.contains_key(k) ==> after[k] == before[k],
{
    assert(row_in(after, k) == row_in(before, k));
}

} // verus!
