//! Undo records and the pages that hold them.
//!
//! ```text
//! 0  page type   2..4  free end   4..6  records   8..16  next page
//! 16..88  segment header, on the first page of a segment only
//! ..      directory: the offset of each record, 2 bytes each
//! ..      records, packed towards the end of the page
//! ```
use vstd::prelude::*;

use crate::common::{bytes_view, io_error, is_io_error, page_bytes, page_from_vec, page_slice,
    Error, IoErrorKind, Page, PageId, Result, PAGE_SIZE, VALUE_SIZE};
use crate::layout::{get_u16, get_u32, get_u64, le2, le4, le8, lemma_field2, lemma_field4,
    lemma_field8, push_bytes, push_u16, push_u64,
    set_bytes, set_u16, set_u32, set_u64, splice, u16_at, u32_at, u64_at, zeroed, zeros};
use bytes::Bytes;

verus! {

pub const UNDO_PAGE_TYPE: u8 = 1;

pub const UNDO_SEGMENT_PAGE_TYPE: u8 = 2;

pub const SEGMENT_STATE_IN_PROGRESS: u8 = 0;

pub const SEGMENT_STATE_COMMITTED: u8 = 1;

pub const SEGMENT_STATE_ABORTED: u8 = 2;

pub const SEGMENT_STATE_PURGED: u8 = 3;

/// Bytes of a record on a page.
pub const UNDO_RECORD_SIZE: usize = 1080;

pub const BASE_HDR_SIZE: usize = 16;

pub const SEG_PAGE_HDR_SIZE: usize = 88;

/// Where an undo record lies: a page and a slot on it.
#[derive(Clone, Copy, Debug, PartialEq, Eq, Structural)]
pub struct UndoPtr {
    pub page_id: PageId,
    pub slot_id: u16,
}

impl UndoPtr {
    /// No undo record.
    pub fn none() -> (r: Option<UndoPtr>)
        ensures
            r is None,
    {
        None
    }
}

/// Undo record with both version-chain and txn-chain links.
#[derive(Clone, Debug, PartialEq, Eq)]
pub struct UndoRecord {
    pub data_page_id: PageId,
    pub data_slot_id: u16,
    pub prev: Option<UndoPtr>,
    pub txn_id: u64,
    pub txn_next: Option<UndoPtr>,
    pub old_commit_lsn: u64,
    pub old_flags: u16,
    pub old_value: [u8; VALUE_SIZE],
}

/// An undo record whose value shares the page's buffer.
#[derive(Clone, Debug, PartialEq, Eq)]
pub struct UndoRecordRef {
    pub data_page_id: PageId,
    pub data_slot_id: u16,
    pub prev: Option<UndoPtr>,
    pub txn_id: u64,
    pub txn_next: Option<UndoPtr>,
    pub old_commit_lsn: u64,
    pub old_flags: u16,
    pub old_value: Bytes,
}

/// State of one transaction's undo pages, on the first of them.
#[derive(Clone, Copy, Debug, PartialEq, Eq, Structural)]
pub struct UndoSegmentHeader {
    pub txn_id: u64,
    pub begin_lsn: u64,
    pub commit_lsn: u64,
    pub state: u8,
    pub first_page_id: PageId,
    pub last_page_id: PageId,
    pub record_count: u32,
    pub history_prev: PageId,
    pub history_next: PageId,
}

/// What an undo record says.
#[verifier::ext_equal]
pub struct UndoFields {
    pub data_page_id: int,
    pub data_slot_id: int,
    pub prev: Option<UndoPtr>,
    pub txn_id: int,
    pub txn_next: Option<UndoPtr>,
    pub old_commit_lsn: int,
    pub old_flags: int,
    pub old_value: Seq<u8>,
}

impl View for UndoRecord {
    type V = UndoFields;

    open spec fn view(&self) -> UndoFields {
        UndoFields {
            data_page_id: self.data_page_id as int,
            data_slot_id: self.data_slot_id as int,
            prev: self.prev,
            txn_id: self.txn_id as int,
            txn_next: self.txn_next,
            old_commit_lsn: self.old_commit_lsn as int,
            old_flags: self.old_flags as int,
            old_value: self.old_value@,
        }
    }
}

impl View for UndoRecordRef {
    type V = UndoFields;

    open spec fn view(&self) -> UndoFields {
        UndoFields {
            data_page_id: self.data_page_id as int,
            data_slot_id: self.data_slot_id as int,
            prev: self.prev,
            txn_id: self.txn_id as int,
            txn_next: self.txn_next,
            old_commit_lsn: self.old_commit_lsn as int,
            old_flags: self.old_flags as int,
            old_value: bytes_view(self.old_value),
        }
    }
}

/// A pointer to page zero is no pointer.
pub open spec fn stored_ptr(p: Option<UndoPtr>) -> Option<UndoPtr> {
    match p {
        Some(u) => if u.page_id == 0 {
            None
        } else {
            p
        },
        None => None,
    }
}

/// What is read back of a stored record.
pub open spec fn stored(f: UndoFields) -> UndoFields {
    UndoFields { prev: stored_ptr(f.prev), txn_next: stored_ptr(f.txn_next), ..f }
}

/// Page and slot of a pointer, zero for none.
pub open spec fn ptr_page(p: Option<UndoPtr>) -> int {
    match p {
        Some(u) => u.page_id as int,
        None => 0,
    }
}

pub open spec fn ptr_slot(p: Option<UndoPtr>) -> int {
    match p {
        Some(u) => u.slot_id as int,
        None => 0,
    }
}

/// The pointer stored at `o`: the page, then the slot.
pub open spec fn ptr_at(s: Seq<u8>, o: int) -> Option<UndoPtr> {
    if u64_at(s, o) == 0 {
        None
    } else {
        Some(UndoPtr { page_id: u64_at(s, o) as u64, slot_id: u16_at(s, o + 8) as u16 })
    }
}

/// The bytes of a record.
pub open spec fn record_bytes(f: UndoFields) -> Seq<u8> {
    le8(f.data_page_id) + le2(f.data_slot_id) + le2(0) + le8(ptr_page(f.prev)) + le2(
        ptr_slot(f.prev),
    ) + le2(0) + le8(f.txn_id) + le8(ptr_page(f.txn_next)) + le2(ptr_slot(f.txn_next)) + le2(0)
        + le8(f.old_commit_lsn) + le2(f.old_flags) + le2(0) + f.old_value
}

/// The record that begins at `o`.
pub open spec fn fields_at(s: Seq<u8>, o: int) -> UndoFields {
    UndoFields {
        data_page_id: u64_at(s, o),
        data_slot_id: u16_at(s, o + 8),
        prev: ptr_at(s, o + 12),
        txn_id: u64_at(s, o + 24),
        txn_next: ptr_at(s, o + 32),
        old_commit_lsn: u64_at(s, o + 44),
        old_flags: u16_at(s, o + 52),
        old_value: s.subrange(o + 56, o + 56 + VALUE_SIZE),
    }
}

/// Header size, by the page's type.
pub open spec fn hdr_size(s: Seq<u8>) -> Option<int> {
    if s[0] == UNDO_PAGE_TYPE {
        Some(BASE_HDR_SIZE as int)
    } else if s[0] == UNDO_SEGMENT_PAGE_TYPE {
        Some(SEG_PAGE_HDR_SIZE as int)
    } else {
        None
    }
}

pub open spec fn free_end_of(s: Seq<u8>) -> int {
    u16_at(s, 2)
}

pub open spec fn count_of(s: Seq<u8>) -> int {
    u16_at(s, 4)
}

/// Where the directory holds the offset of record `i`.
pub open spec fn dir_at(s: Seq<u8>, i: int) -> int {
    hdr_size(s)->0 + 2 * i
}

/// Where record `i` begins.
pub open spec fn record_offset(s: Seq<u8>, i: int) -> int {
    u16_at(s, dir_at(s, i))
}

/// The error of a buffer that is no undo page.
pub open spec fn not_undo<T>(s: Seq<u8>, r: Result<T>) -> bool {
    if s.len() != PAGE_SIZE {
        r matches Err(Error::InvalidPageSize(a, b)) && a == s.len() && b == PAGE_SIZE
    } else {
        r matches Err(e) && is_io_error(e, IoErrorKind::InvalidInput, "not an undo page"@)
    }
}

pub open spec fn is_undo(s: Seq<u8>) -> bool {
    s.len() == PAGE_SIZE && hdr_size(s) is Some
}

fn page_hdr_size(page: &[u8]) -> (r: Result<usize>)
    ensures
        if is_undo(page@) {
            r matches Ok(n) && hdr_size(page@) == Some(n as int)
        } else {
            not_undo(page@, r)
        },
{
    if page.len() != PAGE_SIZE {
        return Err(Error::InvalidPageSize(page.len(), PAGE_SIZE));
    }
    let kind: u8 = page[0];
    if kind == UNDO_PAGE_TYPE {
        Ok(BASE_HDR_SIZE)
    } else if kind == UNDO_SEGMENT_PAGE_TYPE {
        Ok(SEG_PAGE_HDR_SIZE)
    } else {
        Err(io_error(IoErrorKind::InvalidInput, "not an undo page"))
    }
}

/// The bytes of a page without records.
pub open spec fn empty_page(kind: u8) -> Seq<u8> {
    splice(zeros(PAGE_SIZE as int).update(0, kind), 2, le2(PAGE_SIZE as int))
}

fn new_page_buf(kind: u8) -> (r: Vec<u8>)
    ensures
        r@ == empty_page(kind),
{
    let mut p: Vec<u8> = zeroed(PAGE_SIZE);
    p.set(0, kind);
    set_u16(&mut p, 2, PAGE_SIZE as u16);
    p
}

/// An undo page without records.
pub fn new_undo_page() -> (r: Page)
    ensures
        bytes_view(r) == empty_page(UNDO_PAGE_TYPE),
{
    page_from_vec(new_page_buf(UNDO_PAGE_TYPE))
}

/// The segment header of a page.
pub open spec fn segment_header_of(s: Seq<u8>) -> UndoSegmentHeader {
    UndoSegmentHeader {
        txn_id: u64_at(s, 16) as u64,
        begin_lsn: u64_at(s, 24) as u64,
        commit_lsn: u64_at(s, 32) as u64,
        state: s[40],
        first_page_id: u64_at(s, 48) as u64,
        last_page_id: u64_at(s, 56) as u64,
        record_count: u32_at(s, 64) as u32,
        history_prev: u64_at(s, 72) as u64,
        history_next: u64_at(s, 80) as u64,
    }
}

/// The page with another segment header.
#[verifier::opaque]
pub open spec fn with_segment_header(s: Seq<u8>, h: UndoSegmentHeader) -> Seq<u8> {
    let a = splice(splice(s, 16, le8(h.txn_id as int)), 24, le8(h.begin_lsn as int));
    let b = splice(a, 32, le8(h.commit_lsn as int)).update(40, h.state);
    let c = splice(splice(b, 48, le8(h.first_page_id as int)), 56, le8(h.last_page_id as int));
    splice(
        splice(splice(c, 64, le4(h.record_count as int)), 72, le8(h.history_prev as int)),
        80,
        le8(h.history_next as int),
    )
}

/// The header of a segment that has just begun.
pub open spec fn fresh_segment(txn_id: u64, page_id: PageId) -> UndoSegmentHeader {
    UndoSegmentHeader {
        txn_id,
        begin_lsn: 0,
        commit_lsn: 0,
        state: SEGMENT_STATE_IN_PROGRESS,
        first_page_id: page_id,
        last_page_id: page_id,
        record_count: 0,
        history_prev: 0,
        history_next: 0,
    }
}

fn put_segment_header(page: &mut Vec<u8>, hdr: UndoSegmentHeader)
    requires
        old(page)@.len() == PAGE_SIZE,
    ensures
        final(page)@ == with_segment_header(old(page)@, hdr),
        final(page)@.len() == PAGE_SIZE,
{
    reveal(with_segment_header);
    set_u64(page, 16, hdr.txn_id);
    set_u64(page, 24, hdr.begin_lsn);
    set_u64(page, 32, hdr.commit_lsn);
    page.set(40, hdr.state);
    set_u64(page, 48, hdr.first_page_id);
    set_u64(page, 56, hdr.last_page_id);
    set_u32(page, 64, hdr.record_count);
    set_u64(page, 72, hdr.history_prev);
    set_u64(page, 80, hdr.history_next);
}

/// The first page of a transaction's undo segment.
pub fn new_undo_segment_page(txn_id: u64, page_id: PageId) -> (r: Page)
    ensures
        bytes_view(r) == with_segment_header(
            empty_page(UNDO_SEGMENT_PAGE_TYPE),
            fresh_segment(txn_id, page_id),
        ),
{
    let mut p: Vec<u8> = new_page_buf(UNDO_SEGMENT_PAGE_TYPE);
    put_segment_header(
        &mut p,
        UndoSegmentHeader {
            txn_id,
            begin_lsn: 0,
            commit_lsn: 0,
            state: SEGMENT_STATE_IN_PROGRESS,
            first_page_id: page_id,
            last_page_id: page_id,
            record_count: 0,
            history_prev: 0,
            history_next: 0,
        },
    );
    page_from_vec(p)
}

/// Records on the page; zero for a buffer of another size.
pub fn undo_count(page: &[u8]) -> (r: u16)
    ensures
        r == (if page@.len() == PAGE_SIZE {
            count_of(page@)
        } else {
            0
        }),
{
    if page.len() != PAGE_SIZE {
        return 0;
    }
    get_u16(page, 4)
}

/// The next page of the segment.
pub fn page_next_id(page: &[u8]) -> (r: Result<PageId>)
    ensures
        if is_undo(page@) {
            r matches Ok(n) && n == u64_at(page@, 8)
        } else {
            not_undo(page@, r)
        },
{
    match page_hdr_size(page) {
        Ok(_) => Ok(get_u64(page, 8)),
        Err(e) => Err(e),
    }
}

/// Links the page to the next one of its segment.
pub fn set_page_next_id(page: &mut Vec<u8>, next: PageId) -> (r: Result<()>)
    ensures
        if is_undo(old(page)@) {
            r is Ok && final(page)@ == splice(old(page)@, 8, le8(next as int))
        } else {
            not_undo(old(page)@, r) && final(page)@ == old(page)@
        },
{
    match page_hdr_size(page.as_slice()) {
        Ok(_) => {
            set_u64(page, 8, next);
            Ok(())
        },
        Err(e) => Err(e),
    }
}

/// The error of a buffer that is no first page of a segment.
pub open spec fn not_segment<T>(s: Seq<u8>, r: Result<T>) -> bool {
    if s.len() != PAGE_SIZE {
        r matches Err(Error::InvalidPageSize(a, b)) && a == s.len() && b == PAGE_SIZE
    } else {
        r matches Err(e) && is_io_error(
            e,
            IoErrorKind::InvalidInput,
            "not a segment-head undo page"@,
        )
    }
}

pub open spec fn is_segment(s: Seq<u8>) -> bool {
    s.len() == PAGE_SIZE && s[0] == UNDO_SEGMENT_PAGE_TYPE
}

/// The segment header.
pub fn read_segment_header(page: &[u8]) -> (r: Result<UndoSegmentHeader>)
    ensures
        if is_segment(page@) {
            r == Ok::<UndoSegmentHeader, Error>(segment_header_of(page@))
        } else {
            not_segment(page@, r)
        },
{
    if page.len() != PAGE_SIZE {
        return Err(Error::InvalidPageSize(page.len(), PAGE_SIZE));
    }
    if page[0] != UNDO_SEGMENT_PAGE_TYPE {
        return Err(io_error(IoErrorKind::InvalidInput, "not a segment-head undo page"));
    }
    Ok(
        UndoSegmentHeader {
            txn_id: get_u64(page, 16),
            begin_lsn: get_u64(page, 24),
            commit_lsn: get_u64(page, 32),
            state: page[40],
            first_page_id: get_u64(page, 48),
            last_page_id: get_u64(page, 56),
            record_count: get_u32(page, 64),
            history_prev: get_u64(page, 72),
            history_next: get_u64(page, 80),
        },
    )
}

/// Overwrites the segment header.
pub fn write_segment_header(page: &mut Vec<u8>, hdr: UndoSegmentHeader) -> (r: Result<()>)
    ensures
        if is_segment(old(page)@) {
            r is Ok && final(page)@ == with_segment_header(old(page)@, hdr)
        } else {
            not_segment(old(page)@, r) && final(page)@ == old(page)@
        },
{
    if page.len() != PAGE_SIZE {
        return Err(Error::InvalidPageSize(page.len(), PAGE_SIZE));
    }
    if page[0] != UNDO_SEGMENT_PAGE_TYPE {
        return Err(io_error(IoErrorKind::InvalidInput, "not a segment-head undo page"));
    }
    put_segment_header(page, hdr);
    Ok(())
}

/// A header that was written is read back, and no other byte of the page changes.
pub proof fn law_segment_header_round_trip(s: Seq<u8>, h: UndoSegmentHeader)
    requires
        is_segment(s),
    ensures
        is_segment(with_segment_header(s, h)),
        segment_header_of(with_segment_header(s, h)) == h,
        forall|j: int|
            0 <= j < PAGE_SIZE && !(BASE_HDR_SIZE <= j < SEG_PAGE_HDR_SIZE)
                ==> #[trigger] with_segment_header(s, h)[j] == s[j],
{
    reveal(with_segment_header);
    let r = with_segment_header(s, h);
    assert(r.subrange(16, 24) =~= le8(h.txn_id as int));
    assert(r.subrange(24, 32) =~= le8(h.begin_lsn as int));
    assert(r.subrange(32, 40) =~= le8(h.commit_lsn as int));
    assert(r.subrange(48, 56) =~= le8(h.first_page_id as int));
    assert(r.subrange(56, 64) =~= le8(h.last_page_id as int));
    assert(r.subrange(64, 68) =~= le4(h.record_count as int));
    assert(r.subrange(72, 80) =~= le8(h.history_prev as int));
    assert(r.subrange(80, 88) =~= le8(h.history_next as int));
    lemma_field8(r, 16, h.txn_id as int);
    lemma_field8(r, 24, h.begin_lsn as int);
    lemma_field8(r, 32, h.commit_lsn as int);
    lemma_field8(r, 48, h.first_page_id as int);
    lemma_field8(r, 56, h.last_page_id as int);
    lemma_field4(r, 64, h.record_count as int);
    lemma_field8(r, 72, h.history_prev as int);
    lemma_field8(r, 80, h.history_next as int);
}

/// No room for another record.
pub open spec fn is_full(s: Seq<u8>) -> bool {
    free_end_of(s) < dir_at(s, count_of(s) + 1) + UNDO_RECORD_SIZE
}

/// The page with one more record.
#[verifier::opaque]
pub open spec fn appended(s: Seq<u8>, f: UndoFields) -> Seq<u8> {
    let o = free_end_of(s) - UNDO_RECORD_SIZE;
    let body = splice(splice(s, o, record_bytes(f)), dir_at(s, count_of(s)), le2(o));
    splice(splice(body, 2, le2(o)), 4, le2(count_of(s) + 1))
}

fn record_buf(rec: &UndoRecord) -> (r: Vec<u8>)
    ensures
        r@ == record_bytes(rec@),
        r@.len() == UNDO_RECORD_SIZE,
{
    let mut out: Vec<u8> = Vec::new();
    let (prev_pid, prev_sid): (u64, u16) = match rec.prev {
        Some(p) => (p.page_id, p.slot_id),
        None => (0, 0),
    };
    let (next_pid, next_sid): (u64, u16) = match rec.txn_next {
        Some(p) => (p.page_id, p.slot_id),
        None => (0, 0),
    };
    push_u64(&mut out, rec.data_page_id);
    push_u16(&mut out, rec.data_slot_id);
    push_u16(&mut out, 0);
    push_u64(&mut out, prev_pid);
    push_u16(&mut out, prev_sid);
    push_u16(&mut out, 0);
    push_u64(&mut out, rec.txn_id);
    push_u64(&mut out, next_pid);
    push_u16(&mut out, next_sid);
    push_u16(&mut out, 0);
    push_u64(&mut out, rec.old_commit_lsn);
    push_u16(&mut out, rec.old_flags);
    push_u16(&mut out, 0);
    push_bytes(&mut out, rec.old_value.as_slice());
    assert(out@ =~= record_bytes(rec@));
    out
}

/// Puts a record on the page and returns its slot.
pub fn append_record(page: &mut Vec<u8>, rec: &UndoRecord) -> (r: Result<u16>)
    requires
        is_undo(old(page)@) && !is_full(old(page)@) ==> free_end_of(old(page)@) <= PAGE_SIZE,
    ensures
        ({
            let s = old(page)@;
            if !is_undo(s) {
                not_undo(s, r) && final(page)@ == s
            } else if is_full(s) {
                &&& r matches Err(e) && is_io_error(e, IoErrorKind::Other, "undo page full"@)
                &&& final(page)@ == s
            } else {
                r matches Ok(i) && i == count_of(s) && final(page)@ == appended(s, rec@)
            }
        }),
{
    let hdr: usize = match page_hdr_size(page.as_slice()) {
        Ok(n) => n,
        Err(e) => return Err(e),
    };
    let free_end: usize = get_u16(page.as_slice(), 2) as usize;
    let count: u16 = get_u16(page.as_slice(), 4);
    let dir_bytes: usize = hdr + (count as usize + 1) * 2;
    if free_end < dir_bytes + UNDO_RECORD_SIZE {
        return Err(io_error(IoErrorKind::Other, "undo page full"));
    }
    reveal(appended);
    let off: usize = free_end - UNDO_RECORD_SIZE;
    let bytes: Vec<u8> = record_buf(rec);
    set_bytes(page, off, bytes.as_slice());
    set_u16(page, hdr + count as usize * 2, off as u16);
    set_u16(page, 2, off as u16);
    set_u16(page, 4, count + 1);
    Ok(count)
}

/// What reading record `i` needs of a page: its directory lies inside it.
pub open spec fn slot_readable(s: Seq<u8>, i: int) -> bool {
    is_undo(s) && i < count_of(s) ==> dir_at(s, i) + 2 <= PAGE_SIZE
}

/// Whether the place of a record lies inside the page; see `slot_readable`.
pub fn slot_is_readable(page: &[u8], slot_id: u16) -> (r: bool)
    ensures
        r == slot_readable(page@, slot_id as int),
{
    match page_hdr_size(page) {
        Ok(hdr) => slot_id >= get_u16(page, 4) || hdr + slot_id as usize * 2 + 2 <= PAGE_SIZE,
        Err(_) => true,
    }
}

/// The free space of an undo page with room ends inside the page.
pub fn free_end_is_inside(page: &[u8]) -> (r: bool)
    ensures
        r == (is_undo(page@) && !is_full(page@) ==> free_end_of(page@) <= PAGE_SIZE),
{
    match page_hdr_size(page) {
        Ok(hdr) => {
            let end: usize = get_u16(page, 2) as usize;
            let count: usize = get_u16(page, 4) as usize;
            end < hdr + 2 * (count + 1) + UNDO_RECORD_SIZE || end <= PAGE_SIZE
        },
        Err(_) => true,
    }
}

/// The error of a record that cannot be read.
pub open spec fn unreadable<T>(s: Seq<u8>, i: int, r: Result<T>) -> bool {
    if !is_undo(s) {
        not_undo(s, r)
    } else if i >= count_of(s) {
        r matches Err(e) && is_io_error(e, IoErrorKind::InvalidInput, "undo slot out of range"@)
    } else {
        r matches Err(Error::InvalidPageSize(a, b)) && a == record_offset(s, i) + UNDO_RECORD_SIZE
            && b == PAGE_SIZE
    }
}

pub open spec fn has_record(s: Seq<u8>, i: int) -> bool {
    is_undo(s) && i < count_of(s) && record_offset(s, i) + UNDO_RECORD_SIZE <= PAGE_SIZE
}

fn locate_record(page: &[u8], slot_id: u16) -> (r: Result<usize>)
    requires
        slot_readable(page@, slot_id as int),
    ensures
        if has_record(page@, slot_id as int) {
            r matches Ok(o) && o == record_offset(page@, slot_id as int)
        } else {
            unreadable(page@, slot_id as int, r)
        },
{
    let hdr: usize = match page_hdr_size(page) {
        Ok(n) => n,
        Err(e) => return Err(e),
    };
    let count: u16 = get_u16(page, 4);
    if slot_id >= count {
        return Err(io_error(IoErrorKind::InvalidInput, "undo slot out of range"));
    }
    let off: usize = get_u16(page, hdr + slot_id as usize * 2) as usize;
    if off + UNDO_RECORD_SIZE > PAGE_SIZE {
        return Err(Error::InvalidPageSize(off + UNDO_RECORD_SIZE, PAGE_SIZE));
    }
    Ok(off)
}

fn get_ptr(page: &[u8], off: usize) -> (r: Option<UndoPtr>)
    requires
        off + 10 <= page@.len(),
    ensures
        r == ptr_at(page@, off as int),
{
    let len: usize = page.len();
    assert(off + 10 <= len);
    let pid: u64 = get_u64(page, off);
    if pid == 0 {
        None
    } else {
        Some(UndoPtr { page_id: pid, slot_id: get_u16(page, off + 8) })
    }
}

pub(crate) fn value_array(page: &[u8], off: usize) -> (r: [u8; VALUE_SIZE])
    requires
        off + VALUE_SIZE <= page@.len(),
    ensures
        r@ == page@.subrange(off as int, off + VALUE_SIZE),
{
    let len: usize = page.len();
    let mut out: [u8; VALUE_SIZE] = [0u8;VALUE_SIZE];
    let mut i: usize = 0;
    while i < VALUE_SIZE
        invariant
            i <= VALUE_SIZE,
            off + VALUE_SIZE <= len,
            len == page@.len(),
            out@.len() == VALUE_SIZE,
            forall|j: int| 0 <= j < i ==> #[trigger] out@[j] == page@[off + j],
        decreases VALUE_SIZE - i,
    {
        out[i] = page[off + i];
        i += 1;
    }
    assert(out@ =~= page@.subrange(off as int, off + VALUE_SIZE));
    out
}

/// The record in a slot.
pub fn read_record(page: &[u8], slot_id: u16) -> (r: Result<UndoRecord>)
    requires
        slot_readable(page@, slot_id as int),
    ensures
        if has_record(page@, slot_id as int) {
            r matches Ok(rec) && rec@ == fields_at(page@, record_offset(page@, slot_id as int))
        } else {
            unreadable(page@, slot_id as int, r)
        },
{
    let off: usize = match locate_record(page, slot_id) {
        Ok(o) => o,
        Err(e) => return Err(e),
    };
    Ok(
        UndoRecord {
            data_page_id: get_u64(page, off),
            data_slot_id: get_u16(page, off + 8),
            prev: get_ptr(page, off + 12),
            txn_id: get_u64(page, off + 24),
            txn_next: get_ptr(page, off + 32),
            old_commit_lsn: get_u64(page, off + 44),
            old_flags: get_u16(page, off + 52),
            old_value: value_array(page, off + 56),
        },
    )
}

/// The record in a slot; its value shares the page's buffer.
pub fn read_record_ref(page: &Page, slot_id: u16) -> (r: Result<UndoRecordRef>)
    requires
        slot_readable(bytes_view(*page), slot_id as int),
    ensures
        ({
            let s = bytes_view(*page);
            if has_record(s, slot_id as int) {
                r matches Ok(rec) && rec@ == fields_at(s, record_offset(s, slot_id as int))
            } else {
                unreadable(s, slot_id as int, r)
            }
        }),
{
    let buf = page_bytes(page);
    let off: usize = match locate_record(buf, slot_id) {
        Ok(o) => o,
        Err(e) => return Err(e),
    };
    Ok(
        UndoRecordRef {
            data_page_id: get_u64(buf, off),
            data_slot_id: get_u16(buf, off + 8),
            prev: get_ptr(buf, off + 12),
            txn_id: get_u64(buf, off + 24),
            txn_next: get_ptr(buf, off + 32),
            old_commit_lsn: get_u64(buf, off + 44),
            old_flags: get_u16(buf, off + 52),
            old_value: page_slice(page, off + 56, off + 56 + VALUE_SIZE),
        },
    )
}

/// Records lie behind the directory, inside the page.
pub open spec fn undo_wf(s: Seq<u8>) -> bool {
    &&& is_undo(s)
    &&& dir_at(s, count_of(s)) <= free_end_of(s) <= PAGE_SIZE
    &&& forall|i: int|
        0 <= i < count_of(s) ==> free_end_of(s) <= #[trigger] record_offset(s, i) && record_offset(
            s,
            i,
        ) + UNDO_RECORD_SIZE <= PAGE_SIZE
}

/// A new page is well formed and has no record.
pub proof fn law_new_pages_wf(txn_id: u64, page_id: PageId)
    ensures
        undo_wf(empty_page(UNDO_PAGE_TYPE)),
        count_of(empty_page(UNDO_PAGE_TYPE)) == 0,
        undo_wf(
            with_segment_header(
                empty_page(UNDO_SEGMENT_PAGE_TYPE),
                fresh_segment(txn_id, page_id),
            ),
        ),
{
    let e = empty_page(UNDO_SEGMENT_PAGE_TYPE);
    law_segment_header_round_trip(e, fresh_segment(txn_id, page_id));
    let w = with_segment_header(e, fresh_segment(txn_id, page_id));
    assert(w[0] == e[0] && w[2] == e[2] && w[3] == e[3] && w[4] == e[4] && w[5] == e[5]);
}

proof fn lemma_record_round_trip(s: Seq<u8>, o: int, f: UndoFields)
    requires
        0 <= o,
        o + UNDO_RECORD_SIZE <= s.len(),
        s.subrange(o, o + UNDO_RECORD_SIZE) == record_bytes(f),
        f.old_value.len() == VALUE_SIZE,
        0 <= f.data_page_id <= u64::MAX,
        0 <= f.data_slot_id <= u16::MAX,
        0 <= f.txn_id <= u64::MAX,
        0 <= f.old_commit_lsn <= u64::MAX,
        0 <= f.old_flags <= u16::MAX,
    ensures
        fields_at(s, o) == stored(f),
{
    let b = record_bytes(f);
    assert(b.len() == UNDO_RECORD_SIZE);
    assert forall|k: int| 0 <= k < UNDO_RECORD_SIZE implies s[o + k] == #[trigger] b[k] by {
        assert(s.subrange(o, o + UNDO_RECORD_SIZE)[k] == s[o + k]);
    }
    assert(s.subrange(o, o + 8) =~= le8(f.data_page_id)) by {
        assert(b.subrange(0, 8) =~= le8(f.data_page_id));
        assert(s.subrange(o, o + 8) =~= b.subrange(0, 8));
    }
    lemma_field8(s, o, f.data_page_id);
    assert(s.subrange(o + 8, o + 10) =~= le2(f.data_slot_id)) by {
        assert(b.subrange(8, 10) =~= le2(f.data_slot_id));
        assert(s.subrange(o + 8, o + 10) =~= b.subrange(8, 10));
    }
    lemma_field2(s, o + 8, f.data_slot_id);
    assert(s.subrange(o + 12, o + 20) =~= le8(ptr_page(f.prev))) by {
        assert(b.subrange(12, 20) =~= le8(ptr_page(f.prev)));
        assert(s.subrange(o + 12, o + 20) =~= b.subrange(12, 20));
    }
    lemma_field8(s, o + 12, ptr_page(f.prev));
    assert(s.subrange(o + 20, o + 22) =~= le2(ptr_slot(f.prev))) by {
        assert(b.subrange(20, 22) =~= le2(ptr_slot(f.prev)));
        assert(s.subrange(o + 20, o + 22) =~= b.subrange(20, 22));
    }
    lemma_field2(s, o + 20, ptr_slot(f.prev));
    assert(s.subrange(o + 24, o + 32) =~= le8(f.txn_id)) by {
        assert(b.subrange(24, 32) =~= le8(f.txn_id));
        assert(s.subrange(o + 24, o + 32) =~= b.subrange(24, 32));
    }
    lemma_field8(s, o + 24, f.txn_id);
    assert(s.subrange(o + 32, o + 40) =~= le8(ptr_page(f.txn_next))) by {
        assert(b.subrange(32, 40) =~= le8(ptr_page(f.txn_next)));
        assert(s.subrange(o + 32, o + 40) =~= b.subrange(32, 40));
    }
    lemma_field8(s, o + 32, ptr_page(f.txn_next));
    assert(s.subrange(o + 40, o + 42) =~= le2(ptr_slot(f.txn_next))) by {
        assert(b.subrange(40, 42) =~= le2(ptr_slot(f.txn_next)));
        assert(s.subrange(o + 40, o + 42) =~= b.subrange(40, 42));
    }
    lemma_field2(s, o + 40, ptr_slot(f.txn_next));
    assert(s.subrange(o + 44, o + 52) =~= le8(f.old_commit_lsn)) by {
        assert(b.subrange(44, 52) =~= le8(f.old_commit_lsn));
        assert(s.subrange(o + 44, o + 52) =~= b.subrange(44, 52));
    }
    lemma_field8(s, o + 44, f.old_commit_lsn);
    assert(s.subrange(o + 52, o + 54) =~= le2(f.old_flags)) by {
        assert(b.subrange(52, 54) =~= le2(f.old_flags));
        assert(s.subrange(o + 52, o + 54) =~= b.subrange(52, 54));
    }
    lemma_field2(s, o + 52, f.old_flags);
    assert(s.subrange(o + 56, o + 56 + VALUE_SIZE) =~= f.old_value) by {
        assert(b.subrange(56, 56 + VALUE_SIZE) =~= f.old_value);
        assert(s.subrange(o + 56, o + 56 + VALUE_SIZE) =~= b.subrange(56, 56 + VALUE_SIZE));
    }
    assert(ptr_at(s, o + 12) == stored_ptr(f.prev));
    assert(ptr_at(s, o + 32) == stored_ptr(f.txn_next));
    assert(fields_at(s, o) =~= stored(f));
}

/// The bytes of the page with one more record.
proof fn lemma_appended(s: Seq<u8>, f: UndoFields)
    requires
        undo_wf(s),
        !is_full(s),
        f.old_value.len() == VALUE_SIZE,
    ensures
        ({
            let t = appended(s, f);
            let o = free_end_of(s) - UNDO_RECORD_SIZE;
            let n = count_of(s);
            let d = dir_at(s, n);
            &&& t.len() == PAGE_SIZE
            &&& t[0] == s[0]
            &&& count_of(t) == n + 1
            &&& free_end_of(t) == o
            &&& u16_at(t, d) == o
            &&& t.subrange(o, o + UNDO_RECORD_SIZE) == record_bytes(f)
            &&& forall|j: int| 16 <= j < o && !(d <= j < d + 2) ==> #[trigger] t[j] == s[j]
            &&& forall|j: int| o + UNDO_RECORD_SIZE <= j < PAGE_SIZE ==> #[trigger] t[j] == s[j]
        }),
{
    reveal(appended);
    let t = appended(s, f);
    let n = count_of(s);
    let o = free_end_of(s) - UNDO_RECORD_SIZE;
    let d = dir_at(s, n);
    let b = record_bytes(f);
    assert(b.len() == UNDO_RECORD_SIZE);
    assert(t.subrange(4, 6) =~= le2(n + 1));
    lemma_field2(t, 4, n + 1);
    assert(t.subrange(2, 4) =~= le2(o));
    lemma_field2(t, 2, o);
    assert(t.subrange(d, d + 2) =~= le2(o));
    lemma_field2(t, d, o);
    assert(t.subrange(o, o + UNDO_RECORD_SIZE) =~= b);
}

/// An earlier record after another one was put on the page.
proof fn lemma_earlier_record(s: Seq<u8>, f: UndoFields, i: int)
    requires
        undo_wf(s),
        !is_full(s),
        f.old_value.len() == VALUE_SIZE,
        0 <= i < count_of(s),
    ensures
        record_offset(appended(s, f), i) == record_offset(s, i),
        fields_at(appended(s, f), record_offset(s, i)) == fields_at(s, record_offset(s, i)),
{
    lemma_appended(s, f);
    let t = appended(s, f);
    let p = record_offset(s, i);
    let q = dir_at(s, i);
    assert(t[q] == s[q] && t[q + 1] == s[q + 1]);
    assert(forall|k: int| p <= k < p + UNDO_RECORD_SIZE ==> #[trigger] t[k] == s[k]);
    assert(t.subrange(p + 56, p + 56 + VALUE_SIZE) =~= s.subrange(p + 56, p + 56 + VALUE_SIZE));
}

/// A record that was put on a well-formed page with room for it is read back
/// from the slot that was returned; the page stays well formed, and every
/// earlier record reads as before.
pub proof fn law_append_then_read(s: Seq<u8>, rec: UndoRecord)
    requires
        undo_wf(s),
        !is_full(s),
    ensures
        ({
            let t = appended(s, rec@);
            let n = count_of(s);
            &&& undo_wf(t)
            &&& count_of(t) == n + 1
            &&& has_record(t, n)
            &&& fields_at(t, record_offset(t, n)) == stored(rec@)
            &&& forall|i: int|
                0 <= i < n ==> #[trigger] record_offset(t, i) == record_offset(s, i) && fields_at(
                    t,
                    record_offset(t, i),
                ) == fields_at(s, record_offset(s, i))
        }),
{
    let f = rec@;
    let t = appended(s, f);
    let n = count_of(s);
    let o = free_end_of(s) - UNDO_RECORD_SIZE;
    lemma_appended(s, f);
    assert(record_offset(t, n) == o);
    lemma_record_round_trip(t, o, f);
    assert forall|i: int| 0 <= i < n implies #[trigger] record_offset(t, i) == record_offset(s, i)
        && fields_at(t, record_offset(t, i)) == fields_at(s, record_offset(s, i)) by {
        lemma_earlier_record(s, f, i);
    }
    assert forall|i: int| 0 <= i < n + 1 implies o <= #[trigger] record_offset(t, i)
        && record_offset(t, i) + UNDO_RECORD_SIZE <= PAGE_SIZE by {
        if i < n {
            assert(free_end_of(s) <= record_offset(s, i));
        }
    }
}

/// Linking a well-formed page to a further one keeps its records.
pub proof fn law_link_keeps_records(s: Seq<u8>, next: int)
    requires
        undo_wf(s),
    ensures
        ({
            let t = splice(s, 8, le8(next));
            &&& undo_wf(t)
            &&& count_of(t) == count_of(s)
            &&& forall|i: int|
                0 <= i < count_of(s) ==> #[trigger] record_offset(t, i) == record_offset(s, i)
                    && fields_at(t, record_offset(t, i)) == fields_at(s, record_offset(s, i))
        }),
{
    let t = splice(s, 8, le8(next));
    assert(t[0] == s[0] && t[2] == s[2] && t[3] == s[3] && t[4] == s[4] && t[5] == s[5]);
    assert forall|i: int| 0 <= i < count_of(s) implies #[trigger] record_offset(t, i)
        == record_offset(s, i) && fields_at(t, record_offset(t, i)) == fields_at(
        s,
        record_offset(s, i),
    ) by {
        let p = record_offset(s, i);
        let q = dir_at(s, i);
        assert(free_end_of(s) <= p);
        assert(t[q] == s[q] && t[q + 1] == s[q + 1]);
        assert(forall|k: int| p <= k < p + UNDO_RECORD_SIZE ==> #[trigger] t[k] == s[k]);
        assert(t.subrange(p + 56, p + 56 + VALUE_SIZE) =~= s.subrange(p + 56, p + 56 + VALUE_SIZE));
    }
}

/// Another segment header keeps the records of a well-formed first page.
pub proof fn law_header_keeps_records(s: Seq<u8>, h: UndoSegmentHeader)
    requires
        undo_wf(s),
        is_segment(s),
    ensures
        ({
            let t = with_segment_header(s, h);
            &&& undo_wf(t)
            &&& count_of(t) == count_of(s)
            &&& forall|i: int|
                0 <= i < count_of(s) ==> #[trigger] record_offset(t, i) == record_offset(s, i)
                    && fields_at(t, record_offset(t, i)) == fields_at(s, record_offset(s, i))
        }),
{
    law_segment_header_round_trip(s, h);
    let t = with_segment_header(s, h);
    assert(t[0] == s[0] && t[2] == s[2] && t[3] == s[3] && t[4] == s[4] && t[5] == s[5]);
    assert forall|i: int| 0 <= i < count_of(s) implies #[trigger] record_offset(t, i)
        == record_offset(s, i) && fields_at(t, record_offset(t, i)) == fields_at(
        s,
        record_offset(s, i),
    ) by {
        let p = record_offset(s, i);
        let q = dir_at(s, i);
        assert(free_end_of(s) <= p);
        assert(t[q] == s[q] && t[q + 1] == s[q + 1]);
        assert(forall|k: int| p <= k < p + UNDO_RECORD_SIZE ==> #[trigger] t[k] == s[k]);
        assert(t.subrange(p + 56, p + 56 + VALUE_SIZE) =~= s.subrange(p + 56, p + 56 + VALUE_SIZE));
    }
}

/// A stored record keeps every field; only a pointer to page zero is read back as none.
pub proof fn law_stored_record_is_whole(f: UndoFields)
    ensures
        stored(f).data_page_id == f.data_page_id,
        stored(f).data_slot_id == f.data_slot_id,
        stored(f).txn_id == f.txn_id,
        stored(f).old_commit_lsn == f.old_commit_lsn,
        stored(f).old_flags == f.old_flags,
        stored(f).old_value == f.old_value,
        f.prev matches Some(u) && u.page_id != 0 ==> stored(f).prev == f.prev,
        f.txn_next matches Some(u) && u.page_id != 0 ==> stored(f).txn_next == f.txn_next,
        f.prev is None || f.prev->0.page_id == 0 ==> stored(f).prev is None,
        f.txn_next is None || f.txn_next->0.page_id == 0 ==> stored(f).txn_next is None,
{
}

/// A well-formed page takes another record exactly as long as 1080 bytes for it and 2 for
/// its place in the directory are left between the directory and the records.
pub proof fn law_page_is_full(s: Seq<u8>)
    requires
        is_undo(s),
    ensures
        is_full(s) <==> u16_at(s, 2) - ((if s[0] == 1 {
            16int
        } else {
            88int
        }) + 2 * u16_at(s, 4)) < 1082,
        s[0] == 1 || s[0] == 2,
{
}

/// The first page of a segment says whose it is, that the transaction goes on, and that
/// the segment begins and ends with it; it is in no history yet.
pub proof fn law_new_segment_says(txn_id: u64, page_id: PageId)
    ensures
        ({
            let s = with_segment_header(
                empty_page(UNDO_SEGMENT_PAGE_TYPE),
                fresh_segment(txn_id, page_id),
            );
            &&& is_segment(s)
            &&& u64_at(s, 16) == txn_id
            &&& u64_at(s, 24) == 0
            &&& u64_at(s, 32) == 0
            &&& s[40] == 0
            &&& u64_at(s, 48) == page_id
            &&& u64_at(s, 56) == page_id
            &&& u32_at(s, 64) == 0
            &&& u64_at(s, 72) == 0
            &&& u64_at(s, 80) == 0
        }),
{
    let e = empty_page(UNDO_SEGMENT_PAGE_TYPE);
    assert(is_segment(e));
    law_segment_header_round_trip(e, fresh_segment(txn_id, page_id));
    let s = with_segment_header(e, fresh_segment(txn_id, page_id));
    assert(segment_header_of(s) == fresh_segment(txn_id, page_id));
}

} // verus!
