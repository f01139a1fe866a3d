//! Which version of a row a transaction sees.
use vstd::prelude::*;

use crate::common::{Error, Result};
use crate::page_bptree::node_page::LeafValueMeta;
use crate::undo_pg::{fields_at, has_record, record_offset, slot_readable, unreadable, UndoFields,
    UndoPtr};

verus! {

pub const FLAG_TOMBSTONE: u16 = 1;

pub const FLAG_INTENT: u16 = 2;

pub open spec fn is_tombstone(flags: u16) -> bool {
    flags & FLAG_TOMBSTONE != 0
}

/// A transaction means to write the row and has not committed.
pub open spec fn is_intent(flags: u16) -> bool {
    flags & FLAG_INTENT != 0
}

/// How a transaction sees a row.
#[derive(Clone, Copy, Debug, PartialEq, Eq, Structural)]
pub enum Visibility {
    /// The row as it stands.
    Current,
    /// No row.
    Deleted,
    /// What the undo records from here on say.
    Undo(Option<UndoPtr>),
    /// Not known before the transaction ends that means to write it.
    Wait(u64),
}

/// How a transaction `own` with the snapshot `read_lsn` sees a row.
pub open spec fn row_seen(meta: LeafValueMeta, own: Option<u64>, read_lsn: u64) -> Visibility {
    let here = if is_tombstone(meta.flags) {
        Visibility::Deleted
    } else {
        Visibility::Current
    };
    if is_intent(meta.flags) {
        if own == Some(meta.intent_txn_id) {
            here
        } else if meta.intent_lsn > read_lsn {
            Visibility::Undo(meta.undo_ptr)
        } else {
            Visibility::Wait(meta.intent_txn_id)
        }
    } else if meta.commit_lsn <= read_lsn {
        here
    } else {
        Visibility::Undo(meta.undo_ptr)
    }
}

/// How a transaction sees a row; see `row_seen`.
pub fn row_visibility(meta: &LeafValueMeta, own: Option<u64>, read_lsn: u64) -> (r: Visibility)
    ensures
        r == row_seen(*meta, own, read_lsn),
{
    let here = if (meta.flags & FLAG_TOMBSTONE) != 0 {
        Visibility::Deleted
    } else {
        Visibility::Current
    };
    if (meta.flags & FLAG_INTENT) != 0 {
        let mine: bool = match own {
            Some(id) => id == meta.intent_txn_id,
            None => false,
        };
        if mine {
            return here;
        }
        if meta.intent_lsn > read_lsn {
            return Visibility::Undo(meta.undo_ptr);
        }
        return Visibility::Wait(meta.intent_txn_id);
    }
    if meta.commit_lsn <= read_lsn {
        return here;
    }
    Visibility::Undo(meta.undo_ptr)
}

/// What following undo records leads to.
#[verifier::ext_equal]
pub enum Walk {
    /// The version at the snapshot: a value, or none.
    Version(Option<Seq<u8>>),
    /// A page that is not there.
    Missing(u64),
    /// A record that cannot be read.
    Unreadable(UndoPtr),
}

/// The record is a version that a read at `read_lsn` stops at.
pub open spec fn stops_at(f: UndoFields, read_lsn: u64) -> bool {
    !is_intent(f.old_flags as u16) && f.old_commit_lsn <= read_lsn
}

/// The record at a pointer.
pub open spec fn undo_at(m: Map<u64, Seq<u8>>, p: UndoPtr) -> UndoFields {
    fields_at(m[p.page_id], record_offset(m[p.page_id], p.slot_id as int))
}

/// There is a record at a pointer.
pub open spec fn undo_here(m: Map<u64, Seq<u8>>, p: UndoPtr) -> bool {
    m.contains_key(p.page_id) && has_record(m[p.page_id], p.slot_id as int)
}

/// Following the records from `p` ends after at most `n` of them.
pub open spec fn walk_ends(
    m: Map<u64, Seq<u8>>,
    p: Option<UndoPtr>,
    read_lsn: u64,
    n: nat,
) -> bool
    decreases n,
{
    match p {
        None => true,
        Some(u) => {
            &&& n > 0
            &&& m.contains_key(u.page_id) ==> slot_readable(m[u.page_id], u.slot_id as int)
            &&& undo_here(m, u) && !stops_at(undo_at(m, u), read_lsn) ==> walk_ends(
                m,
                undo_at(m, u).prev,
                read_lsn,
                (n - 1) as nat,
            )
        },
    }
}

/// Some number of records is enough.
pub open spec fn walk_finite(m: Map<u64, Seq<u8>>, p: Option<UndoPtr>, read_lsn: u64) -> bool {
    exists|n: nat| #[trigger] walk_ends(m, p, read_lsn, n)
}

/// The version that at most `n` records from `p` on lead to.
pub open spec fn walk(m: Map<u64, Seq<u8>>, p: Option<UndoPtr>, read_lsn: u64, n: nat) -> Walk
    decreases n,
{
    match p {
        None => Walk::Version(None),
        Some(u) => if n == 0 {
            Walk::Version(None)
        } else if !m.contains_key(u.page_id) {
            Walk::Missing(u.page_id)
        } else if !undo_here(m, u) {
            Walk::Unreadable(u)
        } else {
            let f = undo_at(m, u);
            if stops_at(f, read_lsn) {
                if is_tombstone(f.old_flags as u16) {
                    Walk::Version(None)
                } else {
                    Walk::Version(Some(f.old_value))
                }
            } else {
                walk(m, f.prev, read_lsn, (n - 1) as nat)
            }
        },
    }
}

/// The version that the records from `p` on lead to.
pub open spec fn undo_version(m: Map<u64, Seq<u8>>, p: Option<UndoPtr>, read_lsn: u64) -> Walk {
    walk(m, p, read_lsn, choose|n: nat| #[trigger] walk_ends(m, p, read_lsn, n))
}

/// Any number of records that is enough leads to the same version.
pub proof fn lemma_walk_unique(
    m: Map<u64, Seq<u8>>,
    p: Option<UndoPtr>,
    read_lsn: u64,
    a: nat,
    b: nat,
)
    requires
        walk_ends(m, p, read_lsn, a),
        walk_ends(m, p, read_lsn, b),
    ensures
        walk(m, p, read_lsn, a) == walk(m, p, read_lsn, b),
    decreases a,
{
    match p {
        None => {},
        Some(u) => {
            if undo_here(m, u) && !stops_at(undo_at(m, u), read_lsn) {
                lemma_walk_unique(
                    m,
                    undo_at(m, u).prev,
                    read_lsn,
                    (a - 1) as nat,
                    (b - 1) as nat,
                );
            }
        },
    }
}

/// The first record decides, or hands over to the one before it.
pub proof fn lemma_version_step(m: Map<u64, Seq<u8>>, u: UndoPtr, read_lsn: u64)
    requires
        walk_finite(m, Some(u), read_lsn),
    ensures
        m.contains_key(u.page_id) ==> slot_readable(m[u.page_id], u.slot_id as int),
        ({
            let v = undo_version(m, Some(u), read_lsn);
            if !m.contains_key(u.page_id) {
                v == Walk::Missing(u.page_id)
            } else if !undo_here(m, u) {
                v == Walk::Unreadable(u)
            } else {
                let f = undo_at(m, u);
                if stops_at(f, read_lsn) {
                    v == Walk::Version(
                        if is_tombstone(f.old_flags as u16) {
                            None
                        } else {
                            Some(f.old_value)
                        },
                    )
                } else {
                    walk_finite(m, f.prev, read_lsn) && v == undo_version(m, f.prev, read_lsn)
                }
            }
        }),
{
    let n = choose|n: nat| #[trigger] walk_ends(m, Some(u), read_lsn, n);
    assert(walk_ends(m, Some(u), read_lsn, n));
    if undo_here(m, u) && !stops_at(undo_at(m, u), read_lsn) {
        let f = undo_at(m, u);
        assert(walk_ends(m, f.prev, read_lsn, (n - 1) as nat));
        let k = choose|k: nat| #[trigger] walk_ends(m, f.prev, read_lsn, k);
        lemma_walk_unique(m, f.prev, read_lsn, (n - 1) as nat, k);
    }
}

/// Without records there is no version.
pub proof fn lemma_version_none(m: Map<u64, Seq<u8>>, read_lsn: u64)
    ensures
        walk_finite(m, None, read_lsn),
        undo_version(m, None, read_lsn) == Walk::Version(None),
{
    assert(walk_ends(m, None, read_lsn, 0));
}

/// The outcome of following the records in the pages `m`, as a value.
pub open spec fn version_result<T>(m: Map<u64, Seq<u8>>, w: Walk, r: Result<T>) -> bool {
    match w {
        Walk::Version(_) => r is Ok,
        Walk::Missing(id) => r matches Err(Error::InMemoryPageMissing(x)) && x == id,
        Walk::Unreadable(u) => unreadable(m[u.page_id], u.slot_id as int, r),
    }
}

/// What is at a pointer is the same in both maps.
pub open spec fn same_record(m: Map<u64, Seq<u8>>, m2: Map<u64, Seq<u8>>, u: UndoPtr) -> bool {
    &&& m2.contains_key(u.page_id) == m.contains_key(u.page_id)
    &&& m.contains_key(u.page_id) ==> slot_readable(m[u.page_id], u.slot_id as int)
        && slot_readable(m2[u.page_id], u.slot_id as int)
    &&& undo_here(m2, u) == undo_here(m, u)
    &&& undo_here(m, u) ==> undo_at(m2, u) == undo_at(m, u)
}

/// Following the records from `p` ends after at most `n` of them, and each is the same
/// in both maps.
pub open spec fn walk_kept(
    m: Map<u64, Seq<u8>>,
    m2: Map<u64, Seq<u8>>,
    p: Option<UndoPtr>,
    read_lsn: u64,
    n: nat,
) -> bool
    decreases n,
{
    match p {
        None => true,
        Some(u) => {
            &&& n > 0
            &&& same_record(m, m2, u)
            &&& undo_here(m, u) && !stops_at(undo_at(m, u), read_lsn) ==> walk_kept(
                m,
                m2,
                undo_at(m, u).prev,
                read_lsn,
                (n - 1) as nat,
            )
        },
    }
}

/// Following the records from `p` ends, and reads the same in both maps.
pub open spec fn reads_alike(
    m: Map<u64, Seq<u8>>,
    m2: Map<u64, Seq<u8>>,
    p: Option<UndoPtr>,
    read_lsn: u64,
) -> bool {
    exists|n: nat| #[trigger] walk_kept(m, m2, p, read_lsn, n)
}

proof fn lemma_walk_kept(
    m: Map<u64, Seq<u8>>,
    m2: Map<u64, Seq<u8>>,
    p: Option<UndoPtr>,
    read_lsn: u64,
    n: nat,
)
    requires
        walk_kept(m, m2, p, read_lsn, n),
    ensures
        walk_ends(m, p, read_lsn, n),
        walk_ends(m2, p, read_lsn, n),
        walk(m2, p, read_lsn, n) == walk(m, p, read_lsn, n),
    decreases n,
{
    match p {
        None => {},
        Some(u) => {
            if undo_here(m, u) && !stops_at(undo_at(m, u), read_lsn) {
                lemma_walk_kept(m, m2, undo_at(m, u).prev, read_lsn, (n - 1) as nat);
            }
        },
    }
}

/// A snapshot finds the same version where the records that it follows are the same.
pub proof fn law_same_records_same_version(
    m: Map<u64, Seq<u8>>,
    m2: Map<u64, Seq<u8>>,
    p: Option<UndoPtr>,
    read_lsn: u64,
)
    requires
        reads_alike(m, m2, p, read_lsn),
    ensures
        walk_finite(m, p, read_lsn),
        walk_finite(m2, p, read_lsn),
        undo_version(m2, p, read_lsn) == undo_version(m, p, read_lsn),
{
    let n = choose|n: nat| #[trigger] walk_kept(m, m2, p, read_lsn, n);
    lemma_walk_kept(m, m2, p, read_lsn, n);
    let a = choose|a: nat| #[trigger] walk_ends(m, p, read_lsn, a);
    let b = choose|b: nat| #[trigger] walk_ends(m2, p, read_lsn, b);
    lemma_walk_unique(m, p, read_lsn, n, a);
    lemma_walk_unique(m2, p, read_lsn, n, b);
}

/// The version of a committed row at a snapshot: the row, or what its undo records
/// lead to.
pub open spec fn committed_version(
    m: Map<u64, Seq<u8>>,
    meta: LeafValueMeta,
    value: Seq<u8>,
    read_lsn: u64,
) -> Walk {
    if meta.commit_lsn <= read_lsn {
        Walk::Version(
            if is_tombstone(meta.flags) {
                None
            } else {
                Some(value)
            },
        )
    } else {
        undo_version(m, meta.undo_ptr, read_lsn)
    }
}

/// A snapshot keeps its version of a row, however often the row is overwritten: a
/// writer puts the row as it was, with its undo records, into an undo record, and
/// following that record leads to the version that the row itself led to.
pub proof fn law_overwritten_version_is_found(
    m: Map<u64, Seq<u8>>,
    u: UndoPtr,
    old: LeafValueMeta,
    value: Seq<u8>,
    read_lsn: u64,
)
    requires
        undo_here(m, u),
        slot_readable(m[u.page_id], u.slot_id as int),
        undo_at(m, u).old_commit_lsn == old.commit_lsn,
        undo_at(m, u).old_flags == old.flags,
        undo_at(m, u).old_value == value,
        undo_at(m, u).prev == old.undo_ptr,
        !is_intent(old.flags),
        old.commit_lsn > read_lsn ==> walk_finite(m, old.undo_ptr, read_lsn),
    ensures
        walk_finite(m, Some(u), read_lsn),
        undo_version(m, Some(u), read_lsn) == committed_version(m, old, value, read_lsn),
{
    if old.commit_lsn <= read_lsn {
        assert(walk_ends(m, Some(u), read_lsn, 1));
    } else {
        let n = choose|n: nat| #[trigger] walk_ends(m, old.undo_ptr, read_lsn, n);
        assert(((n + 1) - 1) as nat == n);
        assert(walk_ends(m, Some(u), read_lsn, (n + 1) as nat));
    }
    lemma_version_step(m, u, read_lsn);
}

/// Who sees what: a committed row is seen as it stands from its commit LSN on, and before
/// it through its undo records. An intent is seen as it stands by its own transaction
/// only; a snapshot from before it goes to the undo records, and a later one waits. What
/// is seen as it stands is a deleted row if the lowest bit of the flags is set.
pub proof fn law_who_sees_what(meta: LeafValueMeta, own: Option<u64>, read_lsn: u64)
    ensures
        ({
            let intent = meta.flags & 2u16 != 0;
            let mine = intent && own is Some && own->0 == meta.intent_txn_id;
            let stands = mine || !intent && meta.commit_lsn <= read_lsn;
            let seen = row_seen(meta, own, read_lsn);
            &&& stands && meta.flags & 1u16 == 0 <==> seen is Current
            &&& stands && meta.flags & 1u16 != 0 <==> seen is Deleted
            &&& intent && !mine && meta.intent_lsn <= read_lsn <==> seen is Wait
            &&& seen matches Visibility::Wait(id) ==> id == meta.intent_txn_id
            &&& seen matches Visibility::Undo(p) ==> p == meta.undo_ptr
            &&& !intent && meta.commit_lsn > read_lsn ==> seen is Undo
            &&& intent && !mine && meta.intent_lsn > read_lsn ==> seen is Undo
        }),
{
}

proof fn lemma_walk_over(m: Map<u64, Seq<u8>>, us: Seq<UndoPtr>, read_lsn: u64, i: int)
    requires
        0 <= i < us.len(),
        forall|j: int|
            0 <= j < us.len() ==> undo_here(m, #[trigger] us[j]) && slot_readable(
                m[us[j].page_id],
                us[j].slot_id as int,
            ),
        forall|j: int|
            0 <= j < us.len() - 1 ==> {
                let f = undo_at(m, #[trigger] us[j]);
                &&& f.prev == Some(us[j + 1])
                &&& f.old_flags as u16 & 2u16 != 0 || f.old_commit_lsn > read_lsn
            },
        ({
            let f = undo_at(m, us[us.len() - 1]);
            f.old_flags as u16 & 2u16 == 0 && f.old_commit_lsn <= read_lsn
        }),
    ensures
        walk_ends(m, Some(us[i]), read_lsn, (us.len() - i) as nat),
        ({
            let f = undo_at(m, us[us.len() - 1]);
            walk(m, Some(us[i]), read_lsn, (us.len() - i) as nat) == Walk::Version(
                if f.old_flags as u16 & 1u16 != 0 {
                    None
                } else {
                    Some(f.old_value)
                },
            )
        }),
    decreases us.len() - i,
{
    if i < us.len() - 1 {
        lemma_walk_over(m, us, read_lsn, i + 1);
        assert(undo_at(m, us[i]).prev == Some(us[i + 1]));
    }
}

/// Reading through undo records goes over every version that is newer than the snapshot
/// and every intent, and stops at the first committed version that the snapshot covers:
/// `us` are the records from the first on, each the one before.
pub proof fn law_undo_finds_first_covered(m: Map<u64, Seq<u8>>, us: Seq<UndoPtr>, read_lsn: u64)
    requires
        us.len() > 0,
        forall|j: int|
            0 <= j < us.len() ==> undo_here(m, #[trigger] us[j]) && slot_readable(
                m[us[j].page_id],
                us[j].slot_id as int,
            ),
        forall|j: int|
            0 <= j < us.len() - 1 ==> {
                let f = undo_at(m, #[trigger] us[j]);
                &&& f.prev == Some(us[j + 1])
                &&& f.old_flags as u16 & 2u16 != 0 || f.old_commit_lsn > read_lsn
            },
        ({
            let f = undo_at(m, us[us.len() - 1]);
            f.old_flags as u16 & 2u16 == 0 && f.old_commit_lsn <= read_lsn
        }),
    ensures
        ({
            let f = undo_at(m, us[us.len() - 1]);
            undo_version(m, Some(us[0]), read_lsn) == Walk::Version(
                if f.old_flags as u16 & 1u16 != 0 {
                    None
                } else {
                    Some(f.old_value)
                },
            )
        }),
{
    lemma_walk_over(m, us, read_lsn, 0);
    let n = choose|n: nat| #[trigger] walk_ends(m, Some(us[0]), read_lsn, n);
    lemma_walk_unique(m, Some(us[0]), read_lsn, n, us.len());
}

} // verus!
