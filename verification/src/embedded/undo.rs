//! Where a transaction puts its undo records.
use vstd::prelude::*;

use super::txn::written;
use crate::common::{bytes_view, page_bytes, page_from_vec, Page, PageId, Result, PAGE_SIZE};
use crate::layout::{copy_bytes, le8, splice};
use crate::meta_page::{MetaFields, MetaPage};
use crate::undo_pg::{append_record, appended, count_of, empty_page, fields_at, free_end_of,
    fresh_segment, has_record, is_full, is_undo, law_append_then_read, new_undo_page,
    new_undo_segment_page, not_undo, record_offset, set_page_next_id, stored, undo_wf,
    with_segment_header, UndoFields, UndoPtr, UndoRecord, UNDO_PAGE_TYPE, UNDO_SEGMENT_PAGE_TYPE};

verus! {

/// Undo pages have ids from here on.
pub const UNDO_BASE: PageId = 2_000_000;

/// The undo pages of one transaction.
#[derive(Clone, Copy, Debug, PartialEq, Eq, Structural)]
pub struct UndoSegment {
    pub first_page_id: Option<PageId>,
    pub last_page_id: Option<PageId>,
    pub last_record: Option<UndoPtr>,
    pub record_count: u32,
}

impl UndoSegment {
    pub fn new() -> (r: UndoSegment)
        ensures
            r == no_segment(),
    {
        UndoSegment { first_page_id: None, last_page_id: None, last_record: None, record_count: 0 }
    }
}

/// No undo page yet.
pub open spec fn no_segment() -> UndoSegment {
    UndoSegment { first_page_id: None, last_page_id: None, last_record: None, record_count: 0 }
}

/// The next undo page: the last of the free ones, or a new one.
pub open spec fn next_undo_page(m: MetaFields) -> u64 {
    if m.undo_free.len() > 0 {
        m.undo_free.last()
    } else {
        m.next_undo_page_id
    }
}

/// What is left after the next undo page was taken.
pub open spec fn undo_page_taken(m: MetaFields) -> MetaFields {
    if m.undo_free.len() > 0 {
        MetaFields { undo_free: m.undo_free.drop_last(), ..m }
    } else {
        MetaFields { next_undo_page_id: (m.next_undo_page_id + 1) as u64, ..m }
    }
}

pub fn alloc_undo_page(meta: &mut MetaPage) -> (r: PageId)
    requires
        old(meta).next_undo_page_id < u64::MAX,
    ensures
        r == next_undo_page(old(meta)@),
        final(meta)@ == undo_page_taken(old(meta)@),
{
    match meta.pop_free_undo() {
        Some(free) => free,
        None => {
            let pid: u64 = meta.next_undo_page_id;
            meta.next_undo_page_id = pid + 1;
            pid
        },
    }
}

/// Page ids of undo pages begin at their base, whatever an older page says.
pub open spec fn based(m: MetaFields) -> MetaFields {
    if m.next_undo_page_id < UNDO_BASE {
        MetaFields { next_undo_page_id: UNDO_BASE, ..m }
    } else {
        m
    }
}

pub fn rebase(meta: &mut MetaPage)
    ensures
        final(meta)@ == based(old(meta)@),
{
    if meta.next_undo_page_id < UNDO_BASE {
        meta.next_undo_page_id = UNDO_BASE;
    }
}

/// A record that was put on a page, and the pages to write.
#[derive(Debug)]
pub struct UndoPlacement {
    pub ptr: UndoPtr,
    pub pages: Vec<(PageId, Page)>,
}

/// A page with one record, which is the first of a transaction.
pub open spec fn first_page(txn_id: u64, pid: u64, f: UndoFields) -> Seq<u8> {
    appended(
        with_segment_header(empty_page(UNDO_SEGMENT_PAGE_TYPE), fresh_segment(txn_id, pid)),
        f,
    )
}

/// A further page with one record.
pub open spec fn further_page(f: UndoFields) -> Seq<u8> {
    appended(empty_page(UNDO_PAGE_TYPE), f)
}

/// The segment after a record was put on page `pid`.
pub open spec fn segment_after(seg: UndoSegment, ptr: UndoPtr) -> UndoSegment {
    UndoSegment {
        first_page_id: if seg.last_page_id is None {
            Some(ptr.page_id)
        } else {
            seg.first_page_id
        },
        last_page_id: Some(ptr.page_id),
        last_record: Some(ptr),
        record_count: if seg.record_count < u32::MAX {
            (seg.record_count + 1) as u32
        } else {
            u32::MAX
        },
    }
}

/// An undo page with room has it inside the page.
pub open spec fn page_sound(s: Seq<u8>) -> bool {
    is_undo(s) && !is_full(s) ==> free_end_of(s) <= PAGE_SIZE
}

proof fn lemma_fresh_pages(txn_id: u64, pid: u64)
    ensures
        ({
            let s = with_segment_header(
                empty_page(UNDO_SEGMENT_PAGE_TYPE),
                fresh_segment(txn_id, pid),
            );
            &&& is_undo(s)
            &&& !is_full(s)
            &&& count_of(s) == 0
            &&& free_end_of(s) == PAGE_SIZE
        }),
        is_undo(empty_page(UNDO_PAGE_TYPE)),
        !is_full(empty_page(UNDO_PAGE_TYPE)),
        count_of(empty_page(UNDO_PAGE_TYPE)) == 0,
        free_end_of(empty_page(UNDO_PAGE_TYPE)) == PAGE_SIZE,
{
    let e = empty_page(UNDO_SEGMENT_PAGE_TYPE);
    let h = fresh_segment(txn_id, pid);
    crate::undo_pg::law_segment_header_round_trip(e, h);
    let s = with_segment_header(e, h);
    assert(s[0] == e[0] && s[2] == e[2] && s[3] == e[3] && s[4] == e[4] && s[5] == e[5]);
    assert(e[2] == 0 && e[3] == 64 && e[4] == 0 && e[5] == 0);
    let f = empty_page(UNDO_PAGE_TYPE);
    assert(f[2] == 0 && f[3] == 64 && f[4] == 0 && f[5] == 0);
}

/// Where an undo record goes, which pages are written, and what the meta page
/// then says.
pub struct UndoPlan {
    pub ptr: UndoPtr,
    pub writes: Seq<(u64, Seq<u8>)>,
    pub meta: MetaFields,
}

/// The plan for a record: on the transaction's first page, which is then taken;
/// on its last page, whose bytes are `current`; or, when that has no room, on a
/// further one. There is none when the last page is no undo page.
pub open spec fn undo_plan(
    seg: UndoSegment,
    meta: MetaFields,
    current: Option<Seq<u8>>,
    txn_id: u64,
    f: UndoFields,
) -> Option<UndoPlan> {
    let pid = next_undo_page(meta);
    match current {
        None => Some(
            UndoPlan {
                ptr: UndoPtr { page_id: pid, slot_id: 0 },
                writes: seq![(pid, first_page(txn_id, pid, f))],
                meta: undo_page_taken(meta),
            },
        ),
        Some(s) => {
            let cur = seg.last_page_id->0;
            if !is_undo(s) {
                None
            } else if !is_full(s) {
                Some(
                    UndoPlan {
                        ptr: UndoPtr { page_id: cur, slot_id: count_of(s) as u16 },
                        writes: seq![(cur, appended(s, f))],
                        meta,
                    },
                )
            } else {
                Some(
                    UndoPlan {
                        ptr: UndoPtr { page_id: pid, slot_id: 0 },
                        writes: seq![(cur, splice(s, 8, le8(pid as int))), (pid, further_page(f))],
                        meta: undo_page_taken(meta),
                    },
                )
            }
        },
    }
}

/// Pages of a list by id and bytes.
pub open spec fn list_views(v: Seq<(PageId, Page)>) -> Seq<(u64, Seq<u8>)> {
    Seq::new(v.len(), |i: int| (v[i].0, bytes_view(v[i].1)))
}

/// Puts an undo record where the transaction's records go; see `undo_plan`.
///
/// `current` holds the transaction's last undo page, if it has one.
pub fn place_undo(
    meta: &mut MetaPage,
    seg: &mut UndoSegment,
    current: Option<&Page>,
    txn_id: u64,
    rec: &UndoRecord,
) -> (r: Result<UndoPlacement>)
    requires
        old(meta).next_undo_page_id < u64::MAX,
        old(seg).last_page_id is Some == current is Some,
        current matches Some(p) ==> page_sound(bytes_view(*p)),
    ensures
        ({
            let bytes = match current {
                Some(p) => Some(bytes_view(*p)),
                None => None,
            };
            match undo_plan(*old(seg), old(meta)@, bytes, txn_id, rec@) {
                Some(plan) => {
                    &&& r matches Ok(u)
                    &&& u.ptr == plan.ptr
                    &&& list_views(u.pages@) == plan.writes
                    &&& final(meta)@ == plan.meta
                    &&& *final(seg) == segment_after(*old(seg), plan.ptr)
                },
                None => not_undo(bytes->0, r) && *final(seg) == *old(seg),
            }
        }),
{
    let mut pages: Vec<(PageId, Page)> = Vec::new();
    let ghost pid0 = next_undo_page(meta@);
    proof {
        lemma_fresh_pages(txn_id, pid0);
    }
    let ptr: UndoPtr = match current {
        None => {
            let pid: u64 = alloc_undo_page(meta);
            let fresh = new_undo_segment_page(txn_id, pid);
            let mut buf: Vec<u8> = copy_bytes(page_bytes(&fresh));
            let slot: u16 = match append_record(&mut buf, rec) {
                Ok(s) => s,
                Err(e) => return Err(e),
            };
            pages.push((pid, page_from_vec(buf)));
            seg.first_page_id = Some(pid);
            UndoPtr { page_id: pid, slot_id: slot }
        },
        Some(p) => {
            let cur: u64 = seg.last_page_id.unwrap();
            let mut buf: Vec<u8> = copy_bytes(page_bytes(p));
            match append_record(&mut buf, rec) {
                Ok(slot) => {
                    pages.push((cur, page_from_vec(buf)));
                    UndoPtr { page_id: cur, slot_id: slot }
                },
                Err(_) => {
                    let pid: u64 = alloc_undo_page(meta);
                    match set_page_next_id(&mut buf, pid) {
                        Ok(()) => {},
                        Err(e) => return Err(e),
                    }
                    pages.push((cur, page_from_vec(buf)));
                    let fresh = new_undo_page();
                    let mut buf2: Vec<u8> = copy_bytes(page_bytes(&fresh));
                    let slot: u16 = match append_record(&mut buf2, rec) {
                        Ok(s) => s,
                        Err(e) => return Err(e),
                    };
                    pages.push((pid, page_from_vec(buf2)));
                    UndoPtr { page_id: pid, slot_id: slot }
                },
            }
        },
    };
    seg.last_page_id = Some(ptr.page_id);
    seg.last_record = Some(ptr);
    if seg.record_count < u32::MAX {
        seg.record_count = seg.record_count + 1;
    }
    proof {
        let bytes = match current {
            Some(p) => Some(bytes_view(*p)),
            None => None,
        };
        let plan = undo_plan(*old(seg), old(meta)@, bytes, txn_id, rec@)->0;
        assert(list_views(pages@) =~= plan.writes);
    }
    Ok(UndoPlacement { ptr, pages })
}

proof fn lemma_first_pages_wf(txn_id: u64, pid: u64, rec: UndoRecord)
    ensures
        undo_wf(first_page(txn_id, pid, rec@)),
        has_record(first_page(txn_id, pid, rec@), 0),
        fields_at(
            first_page(txn_id, pid, rec@),
            record_offset(first_page(txn_id, pid, rec@), 0),
        ) == stored(rec@),
        undo_wf(further_page(rec@)),
        has_record(further_page(rec@), 0),
        fields_at(further_page(rec@), record_offset(further_page(rec@), 0)) == stored(rec@),
{
    crate::undo_pg::law_new_pages_wf(txn_id, pid);
    lemma_fresh_pages(txn_id, pid);
    law_append_then_read(
        with_segment_header(empty_page(UNDO_SEGMENT_PAGE_TYPE), fresh_segment(txn_id, pid)),
        rec,
    );
    law_append_then_read(empty_page(UNDO_PAGE_TYPE), rec);
}

/// An undo record is found where it was put, on a well-formed page: the last of
/// the pages that are written.
pub proof fn law_undo_record_is_found(
    seg: UndoSegment,
    meta: MetaFields,
    current: Option<Seq<u8>>,
    txn_id: u64,
    rec: UndoRecord,
)
    requires
        current matches Some(s) ==> undo_wf(s),
    ensures
        ({
            let plan = undo_plan(seg, meta, current, txn_id, rec@);
            let page = plan->0.writes.last();
            &&& plan is Some
            &&& page.0 == plan->0.ptr.page_id
            &&& undo_wf(page.1)
            &&& has_record(page.1, plan->0.ptr.slot_id as int)
            &&& fields_at(page.1, record_offset(page.1, plan->0.ptr.slot_id as int)) == stored(rec@)
        }),
{
    let pid = next_undo_page(meta);
    lemma_first_pages_wf(txn_id, pid, rec);
    match current {
        Some(s) => {
            if !is_full(s) {
                law_append_then_read(s, rec);
            }
        },
        None => {},
    }
}

/// The records that were put down earlier read as before, wherever they are: on a
/// page that gets another record, on one that is linked to a further page, or on
/// one that is not written. The further page, if one is taken, is one that holds
/// no record of theirs.
pub proof fn law_undo_records_stay(
    m: Map<u64, Seq<u8>>,
    seg: UndoSegment,
    meta: MetaFields,
    txn_id: u64,
    rec: UndoRecord,
    u: UndoPtr,
)
    requires
        seg.last_page_id matches Some(cur) ==> m.contains_key(cur) && undo_wf(m[cur]),
        m.contains_key(u.page_id),
        undo_wf(m[u.page_id]),
        has_record(m[u.page_id], u.slot_id as int),
        u.page_id != next_undo_page(meta),
    ensures
        ({
            let current = match seg.last_page_id {
                Some(cur) => Some(m[cur]),
                None => None,
            };
            let plan = undo_plan(seg, meta, current, txn_id, rec@);
            let after = written(m, plan->0.writes, plan->0.writes.len() as int);
            let s = m[u.page_id];
            let t = after[u.page_id];
            &&& plan is Some
            &&& after.contains_key(u.page_id)
            &&& undo_wf(t)
            &&& has_record(t, u.slot_id as int)
            &&& fields_at(t, record_offset(t, u.slot_id as int)) == fields_at(
                s,
                record_offset(s, u.slot_id as int),
            )
        }),
{
    let pid = next_undo_page(meta);
    reveal_with_fuel(written, 3);
    let i = u.slot_id as int;
    let s = m[u.page_id];
    assert(record_offset(s, i) == record_offset(s, i));
    match seg.last_page_id {
        Some(cur) => {
            if !is_full(m[cur]) {
                law_append_then_read(m[cur], rec);
                if cur == u.page_id {
                    let t = appended(s, rec@);
                    assert(record_offset(t, i) == record_offset(s, i));
                }
            } else {
                crate::undo_pg::law_link_keeps_records(m[cur], pid as int);
                if cur == u.page_id {
                    let t = splice(s, 8, le8(pid as int));
                    assert(record_offset(t, i) == record_offset(s, i));
                }
            }
        },
        None => {},
    }
}

/// An undo page is given out once: the next page is no longer free afterwards, and the
/// one after it is another, as long as no page is listed twice and the listed ones were
/// given out before. Of the listed pages only it goes, and ids of new pages go up by one.
pub proof fn law_undo_page_is_given_once(m: MetaFields)
    requires
        m.undo_free.no_duplicates(),
        forall|i: int|
            0 <= i < m.undo_free.len() ==> #[trigger] m.undo_free[i] < m.next_undo_page_id,
        m.next_undo_page_id < u64::MAX,
    ensures
        !undo_page_taken(m).undo_free.contains(next_undo_page(m)),
        next_undo_page(undo_page_taken(m)) != next_undo_page(m),
        m.undo_free.contains(next_undo_page(m)) || next_undo_page(m) == m.next_undo_page_id,
        m.undo_free.len() > 0 ==> undo_page_taken(m).undo_free.push(next_undo_page(m))
            == m.undo_free && undo_page_taken(m).next_undo_page_id == m.next_undo_page_id,
        m.undo_free.len() == 0 ==> undo_page_taken(m).undo_free == m.undo_free && undo_page_taken(
            m,
        ).next_undo_page_id == m.next_undo_page_id + 1,
        undo_page_taken(m).root_page_id == m.root_page_id,
        undo_page_taken(m).next_bptree_page_id == m.next_bptree_page_id,
        undo_page_taken(m).next_data_page_id == m.next_data_page_id,
        undo_page_taken(m).undo_history_head == m.undo_history_head,
        undo_page_taken(m).undo_history_tail == m.undo_history_tail,
{
    if m.undo_free.len() > 0 {
        let d = m.undo_free.drop_last();
        assert(d.push(m.undo_free.last()) =~= m.undo_free);
        assert(m.undo_free[m.undo_free.len() - 1] == m.undo_free.last());
        if d.contains(m.undo_free.last()) {
            let j = choose|j: int| 0 <= j < d.len() && d[j] == m.undo_free.last();
            assert(m.undo_free[j] == m.undo_free[m.undo_free.len() - 1]);
        }
        if d.len() > 0 {
            assert(m.undo_free[d.len() - 1] == d.last());
        }
    }
}

/// A segment counts its records, ends with the page of its last one, and begins with the
/// page of its first.
pub proof fn law_segment_counts_records(seg: UndoSegment, ptr: UndoPtr)
    ensures
        segment_after(seg, ptr).last_record == Some(ptr),
        segment_after(seg, ptr).last_page_id == Some(ptr.page_id),
        seg.record_count < u32::MAX ==> segment_after(seg, ptr).record_count == seg.record_count + 1,
        seg.last_page_id is Some ==> segment_after(seg, ptr).first_page_id == seg.first_page_id,
        seg.last_page_id is None ==> segment_after(seg, ptr).first_page_id == Some(ptr.page_id),
{
}

/// Ids of undo pages are never below 2000000, and an id that is above stays.
pub proof fn law_undo_ids_have_a_base(m: MetaFields)
    ensures
        based(m).next_undo_page_id >= 2_000_000,
        m.next_undo_page_id >= 2_000_000 ==> based(m) == m,
        based(m).undo_free == m.undo_free,
        based(m).root_page_id == m.root_page_id,
        based(m).next_bptree_page_id == m.next_bptree_page_id,
        based(m).next_data_page_id == m.next_data_page_id,
        based(m).undo_history_head == m.undo_history_head,
        based(m).undo_history_tail == m.undo_history_tail,
{
}

/// Where a record goes: onto the last page while there is room, and else onto a new one,
/// to which the last page then points; nothing else of the last page changes then. The
/// first record of a transaction goes onto a new page.
pub proof fn law_undo_pages_are_linked(
    seg: UndoSegment,
    meta: MetaFields,
    s: Seq<u8>,
    txn_id: u64,
    f: UndoFields,
    m: Map<u64, Seq<u8>>,
)
    requires
        seg.last_page_id is Some,
        is_undo(s),
        seg.last_page_id->0 != next_undo_page(meta),
    ensures
        ({
            let cur = seg.last_page_id->0;
            let plan = undo_plan(seg, meta, Some(s), txn_id, f)->0;
            let after = written(m, plan.writes, plan.writes.len() as int);
            &&& undo_plan(seg, meta, Some(s), txn_id, f) is Some
            &&& !is_full(s) ==> plan.ptr.page_id == cur && plan.meta == meta
            &&& is_full(s) ==> {
                &&& plan.ptr.page_id == next_undo_page(meta)
                &&& plan.ptr.slot_id == 0
                &&& after.contains_key(cur)
                &&& crate::layout::u64_at(after[cur], 8) == next_undo_page(meta)
                &&& after[cur].len() == s.len()
                &&& forall|i: int|
                    0 <= i < s.len() && !(8 <= i < 16) ==> #[trigger] after[cur][i] == s[i]
                &&& after.contains_key(next_undo_page(meta))
            }
            &&& undo_plan(seg, meta, None, txn_id, f) is Some
            &&& undo_plan(seg, meta, None, txn_id, f)->0.ptr.page_id == next_undo_page(meta)
        }),
{
    let cur = seg.last_page_id->0;
    let pid = next_undo_page(meta);
    let plan = undo_plan(seg, meta, Some(s), txn_id, f)->0;
    reveal_with_fuel(written, 3);
    if is_full(s) {
        let t = splice(s, 8, le8(pid as int));
        assert(t.subrange(8, 16) =~= le8(pid as int));
        crate::layout::lemma_field8(t, 8, pid as int);
        assert(written(m, plan.writes, 2)[cur] == t);
    }
}

} // verus!
