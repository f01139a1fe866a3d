//! Writing and deleting rows in a transaction.
use vstd::prelude::*;

use super::soundness::{law_overwrite_keeps_sound, law_own_write_keeps_sound,
    lemma_undo_write_is_cached, segment_sound, sound, staged_cached};
use super::txn::{foreign_text, intent_row, is_foreign, is_read_only_error, undo_pages_written,
    law_same_row_same_version, version_at, EmbeddedCompute, EmbeddedTxn, RowAt, UndoStep};
use super::undo::{segment_after, UndoPlan};
use super::visibility::{is_intent, is_tombstone, FLAG_INTENT, FLAG_TOMBSTONE};
use crate::common::{bytes_view, io_error, is_io_error, page_bytes, Error, IoErrorKind, PageId, Result,
    KEY_SIZE, VALUE_SIZE};
use crate::key_order::is_key;
use crate::meta_page::{not_meta, META_PAGE_ID};
use crate::page_bptree::chain::MAX_SCAN_LEAF_HOPS;
use crate::page_bptree::node_page::{stored_undo_ptr, LeafRow, LeafValue};
use crate::page_bptree::provider::AsyncPageProvider;
use crate::page_bptree::shape::well_shaped;
use crate::page_bptree::tree::lemma_row_size;
use crate::text::join_num;
use crate::txn_page_provider::page_views;
use crate::undo_pg::{not_undo, value_array, UndoPtr, UndoRecord};

verus! {

/// How a write finds the row that it means to replace.
pub enum WriteCase {
    /// There is no row.
    Fresh,
    /// The transaction wrote it before.
    Own(LeafRow),
    /// Another transaction means to write it.
    Foreign(u64),
    /// It is committed, and kept in an undo record.
    Committed(LeafRow),
}

pub open spec fn write_case(row: Option<LeafRow>, own: Option<u64>) -> WriteCase {
    match row {
        None => WriteCase::Fresh,
        Some(old) => if is_foreign(old, own) {
            WriteCase::Foreign(old.meta.intent_txn_id)
        } else if is_intent(old.meta.flags) {
            WriteCase::Own(old)
        } else {
            WriteCase::Committed(old)
        },
    }
}

/// Nothing was written.
pub open spec fn unwritten(t0: EmbeddedTxn, c0: EmbeddedCompute, t1: EmbeddedTxn, c1: EmbeddedCompute) -> bool {
    &&& c1.tree == c0.tree
    &&& c1.page_cache == c0.page_cache
    &&& c1.registry == c0.registry
    &&& t1.dirty == t0.dirty
    &&& t1.bptree_dirty == t0.bptree_dirty
    &&& t1.modified@ == t0.modified@
    &&& t1.undo == t0.undo
}

/// At most one row was put into the tree.
pub open spec fn grew_by_one(c0: &EmbeddedCompute, c1: &EmbeddedCompute) -> bool {
    &&& c1.tree.depth() <= c0.tree.depth() + 1
    &&& c0.tree.provider.next_id() <= c1.tree.provider.next_id() <= c0.tree.provider.next_id()
        + c0.tree.depth() + 3
    &&& c0.tree.len <= c1.tree.len <= c0.tree.len + 1
    &&& well_shaped(c0.tree.tree()) ==> well_shaped(c1.tree.tree())
}

/// The row `row` of `key` was written.
pub open spec fn row_written(
    t0: EmbeddedTxn,
    c0: EmbeddedCompute,
    t1: EmbeddedTxn,
    c1: EmbeddedCompute,
    key: Seq<u8>,
    row: LeafRow,
) -> bool {
    &&& c1.tree.rows() == c0.tree.rows().insert(key, row)
    &&& t1.modified@ == t0.modified@.insert(key)
    &&& c1.registry.txns@.dom() == c0.registry.txns@.dom()
    &&& forall|id: u64| #[trigger]
        c0.registry.txns@.contains_key(id) ==> c1.registry.txns@[id].deadline
            == c0.registry.txns@[id].deadline && c1.registry.txns@[id].write_keys@ == (if Some(id)
            == t0.undo_txn_id {
            c0.registry.txns@[id].write_keys@.insert(key)
        } else {
            c0.registry.txns@[id].write_keys@
        })
}

/// The undo record of `plan` was put down.
pub open spec fn undo_kept(
    t0: EmbeddedTxn,
    c0: EmbeddedCompute,
    t1: EmbeddedTxn,
    c1: EmbeddedCompute,
    plan: UndoPlan,
) -> bool {
    &&& t1.undo == segment_after(t0.undo, plan.ptr)
    &&& undo_pages_written(
        page_views(t0.dirty@),
        page_views(t1.dirty@),
        c0.pages(),
        c1.pages(),
        plan,
    )
}

/// No undo record was put down.
pub open spec fn no_undo(t0: EmbeddedTxn, c0: EmbeddedCompute, t1: EmbeddedTxn, c1: EmbeddedCompute) -> bool {
    t1.undo == t0.undo && t1.dirty == t0.dirty && c1.page_cache == c0.page_cache
}

/// The error of putting down an undo record.
pub open spec fn undo_error<T>(step: UndoStep, r: Result<T>) -> bool {
    match step {
        UndoStep::Placed(_) => r is Ok,
        UndoStep::ReadOnly => r matches Err(e) && is_read_only_error(e),
        UndoStep::NoMeta => r matches Err(Error::InMemoryPageMissing(id)) && id == META_PAGE_ID,
        UndoStep::NoPage(cur) => r matches Err(Error::InMemoryPageMissing(id)) && id == cur,
        UndoStep::BadMeta(mb) => not_meta(mb, r),
        UndoStep::NotUndo(s) => not_undo(s, r),
    }
}

/// Rejects a key of a wrong size, before a transaction is begun for it.
pub fn check_key(key: &[u8]) -> (r: Result<()>)
    ensures
        is_key(key@) ==> r is Ok,
        !is_key(key@) ==> (r matches Err(Error::InvalidKeySize(a, b)) && a == key@.len() && b
            == KEY_SIZE),
{
    if key.len() != KEY_SIZE {
        return Err(Error::InvalidKeySize(key.len(), KEY_SIZE));
    }
    Ok(())
}

/// Rejects a key or a value of a wrong size, before a transaction is begun for them.
pub fn check_row(key: &[u8], value: &[u8]) -> (r: Result<()>)
    ensures
        if !is_key(key@) {
            r matches Err(Error::InvalidKeySize(a, b)) && a == key@.len() && b == KEY_SIZE
        } else if value@.len() != VALUE_SIZE {
            r matches Err(Error::InvalidValueSize(a, b)) && a == value@.len() && b == VALUE_SIZE
        } else {
            r is Ok
        },
{
    match check_key(key) {
        Ok(()) => {},
        Err(e) => {
            return Err(e);
        },
    }
    if value.len() != VALUE_SIZE {
        return Err(Error::InvalidValueSize(value.len(), VALUE_SIZE));
    }
    Ok(())
}

impl EmbeddedTxn {
    /// Puts a row under `key` in the tree, and takes note of it.
    fn write_row(&mut self, compute: &mut EmbeddedCompute, key: &[u8], row: LeafValue) -> (r: Result<
        (),
    >)
        requires
            old(compute).wf(),
            old(self).wf(),
            old(compute).has_room(),
            is_key(key@),
        ensures
            forall|base: Map<PageId, Seq<u8>>| #[trigger]
                old(self).covers(old(compute), base) ==> final(self).covers(final(compute), base),
            r is Ok,
            final(compute).wf(),
            final(self).wf(),
            row_written(*old(self), *old(compute), *final(self), *final(compute), key@, row.row()),
            final(compute).page_cache == old(compute).page_cache,
            final(compute).active_reads == old(compute).active_reads,
            final(self).same_but_writes(old(self)),
            grew_by_one(old(compute), final(compute)),
            final(self).dirty == old(self).dirty,
            final(self).undo == old(self).undo,
    {
        match self.tree_insert(compute, key, row) {
            Ok(()) => {},
            Err(e) => {
                return Err(e);
            },
        }
        self.modified.insert(key);
        match self.undo_txn_id {
            Some(id) => compute.registry.record_txn_write(id, key),
            None => {},
        }
        Ok(())
    }

    /// Writes a row, as an intent of this transaction.
    pub fn put(
        &mut self,
        compute: &mut EmbeddedCompute,
        elapsed_nanos: u128,
        key: &[u8],
        value: &[u8],
    ) -> (r: Result<()>)
        requires
            old(compute).wf(),
            old(self).wf(),
            old(compute).has_room(),
            old(self).undo_ready(old(compute)),
            value@.len() == VALUE_SIZE,
        ensures
            forall|base: Map<PageId, Seq<u8>>| #[trigger]
                old(self).covers(old(compute), base) ==> final(self).covers(final(compute), base),
            final(compute).wf(),
            final(self).wf(),
            final(compute).active_reads == old(compute).active_reads,
            final(self).same_but_writes(old(self)),
            grew_by_one(old(compute), final(compute)),
            forall|floor: u64| #[trigger]
                sound(old(compute), floor) && segment_sound(old(self), old(compute)) ==> sound(
                    final(compute),
                    floor,
                ) && segment_sound(final(self), final(compute)),
            r is Ok ==> exists|row: LeafRow| #[trigger]
                wrote_row(*old(self), *old(compute), *final(self), *final(compute), key@, row)
                    && stands_for(row, Some(value@)),
            staged_cached(old(self), old(compute)) ==> staged_cached(final(self), final(compute)),
            ({
                let t0 = *old(self);
                let c0 = *old(compute);
                let t1 = *final(self);
                let c1 = *final(compute);
                let own = t0.undo_txn_id;
                if t0.timed_out(elapsed_nanos) {
                    &&& r matches Err(Error::TxnTimeout)
                    &&& unwritten(t0, c0, t1, c1)
                } else if t0.read_only {
                    &&& r matches Err(e) && is_read_only_error(e)
                    &&& unwritten(t0, c0, t1, c1)
                } else if !is_key(key@) {
                    &&& r matches Err(Error::InvalidKeySize(a, b)) && a == key@.len() && b
                        == KEY_SIZE
                    &&& unwritten(t0, c0, t1, c1)
                } else {
                    match write_case(c0.row(key@), own) {
                        WriteCase::Foreign(id) => {
                            &&& r matches Err(e) && is_io_error(
                                e,
                                IoErrorKind::WouldBlock,
                                foreign_text(id as int),
                            )
                            &&& unwritten(t0, c0, t1, c1)
                        },
                        WriteCase::Fresh => {
                            &&& r is Ok
                            &&& no_undo(t0, c0, t1, c1)
                            &&& row_written(
                                t0,
                                c0,
                                t1,
                                c1,
                                key@,
                                intent_row(value@, None, FLAG_INTENT, own->0, t0.intent_base_lsn),
                            )
                        },
                        WriteCase::Own(prev) => {
                            &&& r is Ok
                            &&& no_undo(t0, c0, t1, c1)
                            &&& row_written(
                                t0,
                                c0,
                                t1,
                                c1,
                                key@,
                                intent_row(
                                    value@,
                                    prev.meta.undo_ptr,
                                    FLAG_INTENT,
                                    own->0,
                                    prev.meta.intent_lsn,
                                ),
                            )
                        },
                        WriteCase::Committed(prev) => {
                            let step = t0.undo_step(&c0, t0.undo_fields(prev));
                            &&& undo_error(step, r)
                            &&& match step {
                                UndoStep::Placed(plan) => {
                                    &&& undo_kept(t0, c0, t1, c1, plan)
                                    &&& row_written(
                                        t0,
                                        c0,
                                        t1,
                                        c1,
                                        key@,
                                        intent_row(
                                            value@,
                                            Some(plan.ptr),
                                            FLAG_INTENT,
                                            own->0,
                                            t0.intent_base_lsn,
                                        ),
                                    )
                                },
                                _ => unwritten(t0, c0, t1, c1),
                            }
                        },
                    }
                }
            }),
    {
        match self.ensure_not_timed_out(elapsed_nanos) {
            Ok(()) => {},
            Err(e) => {
                return Err(e);
            },
        }
        if self.read_only {
            return Err(io_error(IoErrorKind::PermissionDenied, "read-only transaction"));
        }
        if key.len() != KEY_SIZE {
            return Err(Error::InvalidKeySize(key.len(), KEY_SIZE));
        }
        let own: u64 = self.undo_txn_id.unwrap();
        let mut undo_ptr: Option<UndoPtr> = None;
        let mut intent_lsn: u64 = self.intent_base_lsn;
        match compute.tree.get(key) {
            None => {},
            Some(prev) => {
                if (prev.meta.flags & FLAG_INTENT) != 0 {
                    if prev.meta.intent_txn_id != own {
                        let m = join_num(
                            "encountered foreign intent txn_id=",
                            prev.meta.intent_txn_id,
                        );
                        return Err(io_error(IoErrorKind::WouldBlock, m.as_str()));
                    }
                    undo_ptr = prev.meta.undo_ptr;
                    intent_lsn = prev.meta.intent_lsn;
                } else {
                    proof {
                        lemma_row_size(&compute.tree, key@);
                    }
                    match self.append_undo(compute, &prev) {
                        Ok(p) => {
                            undo_ptr = Some(p);
                        },
                        Err(e) => {
                            return Err(e);
                        },
                    }
                }
            },
        }
        let row = LeafValue {
            value: value_array(value, 0),
            commit_lsn: 0,
            undo_ptr,
            flags: FLAG_INTENT,
            intent_txn_id: own,
            intent_lsn,
        };
        assert(value@.subrange(0, VALUE_SIZE as int) =~= value@);
        let r = self.write_row(compute, key, row);
        proof {
            assert((1u16 | 2u16) & 2u16 != 0 && (1u16 | 2u16) & 1u16 != 0 && 2u16 & 2u16 != 0
                && 2u16 & 1u16 == 0) by (bit_vector);
            assert(wrote_row(*old(self), *old(compute), *self, *compute, key@, row.row()));
            lemma_write_keeps_sound(*old(self), *old(compute), *self, *compute, key@, row.row());
        }
        r
    }

    /// Deletes a row, as an intent of this transaction. A row that does not exist
    /// is left alone.
    pub fn delete(&mut self, compute: &mut EmbeddedCompute, elapsed_nanos: u128, key: &[u8]) -> (r:
        Result<()>)
        requires
            old(compute).wf(),
            old(self).wf(),
            old(compute).has_room(),
            old(self).undo_ready(old(compute)),
        ensures
            forall|base: Map<PageId, Seq<u8>>| #[trigger]
                old(self).covers(old(compute), base) ==> final(self).covers(final(compute), base),
            final(compute).wf(),
            final(self).wf(),
            final(compute).active_reads == old(compute).active_reads,
            final(self).same_but_writes(old(self)),
            grew_by_one(old(compute), final(compute)),
            forall|floor: u64| #[trigger]
                sound(old(compute), floor) && segment_sound(old(self), old(compute)) ==> sound(
                    final(compute),
                    floor,
                ) && segment_sound(final(self), final(compute)),
            r is Ok ==> unwritten(*old(self), *old(compute), *final(self), *final(compute))
                || exists|row: LeafRow| #[trigger]
                wrote_row(*old(self), *old(compute), *final(self), *final(compute), key@, row)
                    && stands_for(row, None),
            staged_cached(old(self), old(compute)) ==> staged_cached(final(self), final(compute)),
            ({
                let t0 = *old(self);
                let c0 = *old(compute);
                let t1 = *final(self);
                let c1 = *final(compute);
                let own = t0.undo_txn_id;
                let flags = FLAG_TOMBSTONE | FLAG_INTENT;
                if t0.timed_out(elapsed_nanos) {
                    &&& r matches Err(Error::TxnTimeout)
                    &&& unwritten(t0, c0, t1, c1)
                } else if t0.read_only {
                    &&& r matches Err(e) && is_read_only_error(e)
                    &&& unwritten(t0, c0, t1, c1)
                } else if !is_key(key@) {
                    r is Ok && unwritten(t0, c0, t1, c1)
                } else {
                    match write_case(c0.row(key@), own) {
                        WriteCase::Foreign(id) => {
                            &&& r matches Err(e) && is_io_error(
                                e,
                                IoErrorKind::WouldBlock,
                                foreign_text(id as int),
                            )
                            &&& unwritten(t0, c0, t1, c1)
                        },
                        WriteCase::Fresh => r is Ok && unwritten(t0, c0, t1, c1),
                        WriteCase::Own(prev) => {
                            &&& r is Ok
                            &&& no_undo(t0, c0, t1, c1)
                            &&& row_written(
                                t0,
                                c0,
                                t1,
                                c1,
                                key@,
                                intent_row(
                                    prev.value,
                                    prev.meta.undo_ptr,
                                    flags,
                                    own->0,
                                    prev.meta.intent_lsn,
                                ),
                            )
                        },
                        WriteCase::Committed(prev) => {
                            let step = t0.undo_step(&c0, t0.undo_fields(prev));
                            &&& undo_error(step, r)
                            &&& match step {
                                UndoStep::Placed(plan) => {
                                    &&& undo_kept(t0, c0, t1, c1, plan)
                                    &&& row_written(
                                        t0,
                                        c0,
                                        t1,
                                        c1,
                                        key@,
                                        intent_row(
                                            prev.value,
                                            Some(plan.ptr),
                                            flags,
                                            own->0,
                                            t0.intent_base_lsn,
                                        ),
                                    )
                                },
                                _ => unwritten(t0, c0, t1, c1),
                            }
                        },
                    }
                }
            }),
    {
        match self.ensure_not_timed_out(elapsed_nanos) {
            Ok(()) => {},
            Err(e) => {
                return Err(e);
            },
        }
        if self.read_only {
            return Err(io_error(IoErrorKind::PermissionDenied, "read-only transaction"));
        }
        if key.len() != KEY_SIZE {
            return Ok(());
        }
        let own: u64 = self.undo_txn_id.unwrap();
        let prev = match compute.tree.get(key) {
            None => {
                return Ok(());
            },
            Some(prev) => prev,
        };
        proof {
            lemma_row_size(&compute.tree, key@);
        }
        let undo_ptr: Option<UndoPtr>;
        let intent_lsn: u64;
        if (prev.meta.flags & FLAG_INTENT) != 0 {
            if prev.meta.intent_txn_id != own {
                let m = join_num("encountered foreign intent txn_id=", prev.meta.intent_txn_id);
                return Err(io_error(IoErrorKind::WouldBlock, m.as_str()));
            }
            undo_ptr = prev.meta.undo_ptr;
            intent_lsn = prev.meta.intent_lsn;
        } else {
            match self.append_undo(compute, &prev) {
                Ok(p) => {
                    undo_ptr = Some(p);
                },
                Err(e) => {
                    return Err(e);
                },
            }
            intent_lsn = self.intent_base_lsn;
        }
        let row = LeafValue {
            value: value_array(page_bytes(&prev.value), 0),
            commit_lsn: 0,
            undo_ptr,
            flags: FLAG_TOMBSTONE | FLAG_INTENT,
            intent_txn_id: own,
            intent_lsn,
        };
        assert(bytes_view(prev.value).subrange(0, VALUE_SIZE as int) =~= bytes_view(prev.value));
        let r = self.write_row(compute, key, row);
        proof {
            assert((1u16 | 2u16) & 2u16 != 0 && (1u16 | 2u16) & 1u16 != 0 && 2u16 & 2u16 != 0
                && 2u16 & 1u16 == 0) by (bit_vector);
            assert(wrote_row(*old(self), *old(compute), *self, *compute, key@, row.row()));
            lemma_write_keeps_sound(*old(self), *old(compute), *self, *compute, key@, row.row());
        }
        r
    }
}

/// The transaction wrote `row` under `key`, as an intent: in place of none, of an intent
/// of its own, or of a committed row, which an undo record keeps.
pub open spec fn wrote_row(
    t0: EmbeddedTxn,
    c0: EmbeddedCompute,
    t1: EmbeddedTxn,
    c1: EmbeddedCompute,
    key: Seq<u8>,
    row: LeafRow,
) -> bool {
    &&& t1.same_but_writes(&t0)
    &&& t0.undo_ready(&c0)
    &&& is_intent(row.meta.flags)
    &&& t0.undo_txn_id == Some(row.meta.intent_txn_id)
    &&& row_written(t0, c0, t1, c1, key, row)
    &&& match write_case(c0.row(key), t0.undo_txn_id) {
        WriteCase::Committed(prev) => {
            &&& exists|rec: UndoRecord| #[trigger] rec@ == t0.undo_fields(prev)
            &&& t0.undo_step(&c0, t0.undo_fields(prev)) matches UndoStep::Placed(plan)
            &&& undo_kept(t0, c0, t1, c1, plan)
            &&& row == intent_row(
                row.value,
                Some(plan.ptr),
                row.meta.flags,
                t0.undo_txn_id->0,
                t0.intent_base_lsn,
            )
        },
        WriteCase::Own(prev) => no_undo(t0, c0, t1, c1) && row.meta.undo_ptr == stored_undo_ptr(
            prev.meta.undo_ptr,
        ),
        WriteCase::Fresh => no_undo(t0, c0, t1, c1) && row.meta.undo_ptr is None,
        WriteCase::Foreign(_) => false,
    }
}

/// The row stands for a value that was put, or for a delete.
pub open spec fn stands_for(row: LeafRow, value: Option<Seq<u8>>) -> bool {
    match value {
        Some(v) => !is_tombstone(row.meta.flags) && row.value == v,
        None => is_tombstone(row.meta.flags),
    }
}

/// A write leaves the engine sound, however it found the row.
pub(crate) proof fn lemma_write_keeps_sound(
    t0: EmbeddedTxn,
    c0: EmbeddedCompute,
    t1: EmbeddedTxn,
    c1: EmbeddedCompute,
    key: Seq<u8>,
    row: LeafRow,
)
    requires
        wrote_row(t0, c0, t1, c1, key, row),
    ensures
        forall|floor: u64| #[trigger]
            sound(&c0, floor) && segment_sound(&t0, &c0) ==> sound(&c1, floor) && segment_sound(
                &t1,
                &c1,
            ),
        staged_cached(&t0, &c0) ==> staged_cached(&t1, &c1),
{
    if staged_cached(&t0, &c0) {
        match write_case(c0.row(key), t0.undo_txn_id) {
            WriteCase::Committed(prev) => {
                let plan = t0.undo_step(&c0, t0.undo_fields(prev))->Placed_0;
                lemma_undo_write_is_cached(t0, c0, t1, c1, plan);
            },
            _ => {},
        }
    }
    assert forall|floor: u64| #[trigger] sound(&c0, floor) && segment_sound(&t0, &c0) implies sound(
        &c1,
        floor,
    ) && segment_sound(&t1, &c1) by {
        match write_case(c0.row(key), t0.undo_txn_id) {
            WriteCase::Committed(prev) => {
                let rec = choose|rec: UndoRecord| #[trigger] rec@ == t0.undo_fields(prev);
                let plan = t0.undo_step(&c0, t0.undo_fields(prev))->Placed_0;
                law_overwrite_keeps_sound(
                    t0,
                    c0,
                    t1,
                    c1,
                    key,
                    prev,
                    row.value,
                    row.meta.flags,
                    rec,
                    plan,
                    floor,
                );
            },
            WriteCase::Own(prev) => {
                assert(c0.tree.rows().contains_key(key));
                law_own_write_keeps_sound(t0, c0, t1, c1, key, row, floor);
            },
            _ => {
                law_own_write_keeps_sound(t0, c0, t1, c1, key, row, floor);
            },
        }
    }
}

/// A transaction reads what it wrote: after a write the row has the new value for
/// it, and after a delete it has none.
pub proof fn law_own_write_is_read(
    t0: EmbeddedTxn,
    c0: EmbeddedCompute,
    t1: EmbeddedTxn,
    c1: EmbeddedCompute,
    key: Seq<u8>,
    value: Seq<u8>,
    undo_ptr: Option<UndoPtr>,
    lsn: u64,
    delete: bool,
)
    requires
        t1.undo_txn_id is Some,
        c1.tree.depth() < MAX_SCAN_LEAF_HOPS,
        row_written(
            t0,
            c0,
            t1,
            c1,
            key,
            intent_row(
                value,
                undo_ptr,
                if delete {
                    FLAG_TOMBSTONE | FLAG_INTENT
                } else {
                    FLAG_INTENT
                },
                t1.undo_txn_id->0,
                lsn,
            ),
        ),
    ensures
        version_at(t1, c1, key) == RowAt::Value(
            if delete {
                None
            } else {
                Some(value)
            },
        ),
{
    assert((1u16 | 2u16) & 2u16 != 0 && (1u16 | 2u16) & 1u16 != 0 && 2u16 & 2u16 != 0 && 2u16 & 1u16
        == 0) by (bit_vector);
    assert(c1.tree.rows().contains_key(key));
}

/// Writing a row changes no other row for any transaction: it reads the other row as
/// before, if the undo records that this takes read as before.
pub proof fn law_write_keeps_other_rows(
    t0: EmbeddedTxn,
    c0: EmbeddedCompute,
    t1: EmbeddedTxn,
    c1: EmbeddedCompute,
    key: Seq<u8>,
    row: LeafRow,
    reader: EmbeddedTxn,
    other: Seq<u8>,
)
    requires
        row_written(t0, c0, t1, c1, key, row),
        c0.tree.depth() < MAX_SCAN_LEAF_HOPS,
        c1.tree.depth() < MAX_SCAN_LEAF_HOPS,
        reader.row_reads_alike(&c0, &c1, other),
        other != key,
    ensures
        reader.row_readable(&c1, other),
        version_at(reader, c1, other) == version_at(reader, c0, other),
{
    assert(c1.tree.rows().contains_key(other) == c0.tree.rows().contains_key(other));
    law_same_row_same_version(reader, c0, c1, other);
}

/// What a write finds: no row; a row that another transaction means to write, which is in
/// the way; a row of its own; or a committed row, which it keeps an undo record of.
pub proof fn law_what_a_write_finds(row: Option<LeafRow>, own: Option<u64>)
    ensures
        row is None <==> write_case(row, own) is Fresh,
        row is Some && row->0.meta.flags & 2u16 == 0 <==> write_case(row, own) is Committed,
        row is Some && row->0.meta.flags & 2u16 != 0 && own == Some(row->0.meta.intent_txn_id)
            <==> write_case(row, own) is Own,
        write_case(row, own) matches WriteCase::Foreign(id) ==> row is Some && id
            == row->0.meta.intent_txn_id && own != Some(id),
        write_case(row, own) matches WriteCase::Own(old) ==> row == Some(old),
        write_case(row, own) matches WriteCase::Committed(old) ==> row == Some(old),
{
}

/// A row stands for a put value exactly if the lowest bit of its flags is clear and it has
/// the value, and for a delete exactly if the bit is set.
pub proof fn law_row_stands_for(row: LeafRow, v: Seq<u8>)
    ensures
        stands_for(row, Some(v)) <==> row.meta.flags & 1u16 == 0 && row.value == v,
        stands_for(row, None) <==> row.meta.flags & 1u16 != 0,
{
}

} // verus!
