//! Pages of fixed-size records behind a slot directory.
//!
//! ```text
//! 0..2  slots   2..4  free start   4..6  free end
//! 6..   slot directory: offset and length, 2 bytes each
//! ..    records, packed towards the end of the page
//! ```
//! A record is the key, the value, and its version fields: commit LSN, undo
//! page, undo slot and flags.
use vstd::prelude::*;

use crate::common::{bytes_view, io_error, is_io_error, page_from_vec, Error, IoErrorKind, Page,
    Result, KEY_SIZE, PAGE_SIZE, VALUE_SIZE};
use crate::key_order::is_key;
use crate::layout::{bytes_eq, copy_range, fill_zero, get_u16, get_u64, le2, le8, lemma_field2,
    lemma_field8, push_bytes, push_u16, push_u64, set_bytes, set_u16, set_u64, splice, u16_at, u64_at, zeroed, zeros};
use crate::undo_pg::UndoPtr;

verus! {

pub const PAGE_HEADER_SIZE: usize = 6;

pub const SLOT_ENTRY_SIZE: usize = 4;

/// Commit LSN, undo page id, undo slot id, flags.
pub const MVCC_HEADER_SIZE: usize = 20;

pub const FLAG_TOMBSTONE: u16 = 1;

/// Bytes of a record.
pub const PAYLOAD_LEN: usize = 1060;

pub open spec fn slots_of(s: Seq<u8>) -> int {
    u16_at(s, 0)
}

pub open spec fn free_start_of(s: Seq<u8>) -> int {
    u16_at(s, 2)
}

pub open spec fn free_end_of(s: Seq<u8>) -> int {
    u16_at(s, 4)
}

/// Where directory entry `i` lies.
pub open spec fn dir_at(i: int) -> int {
    PAGE_HEADER_SIZE + SLOT_ENTRY_SIZE * i
}

pub open spec fn slot_pos(s: Seq<u8>, i: int) -> int {
    u16_at(s, dir_at(i))
}

pub open spec fn slot_len(s: Seq<u8>, i: int) -> int {
    u16_at(s, dir_at(i) + 2)
}

/// The bytes that slot `i` refers to.
pub open spec fn slot_bytes(s: Seq<u8>, i: int) -> Seq<u8> {
    s.subrange(slot_pos(s, i), slot_pos(s, i) + slot_len(s, i))
}

/// Directory entry `i` lies inside the page.
pub open spec fn slot_id_fits(i: int) -> bool {
    dir_at(i) + SLOT_ENTRY_SIZE <= PAGE_SIZE
}

/// The page with another header.
#[verifier::opaque]
pub open spec fn with_header(s: Seq<u8>, slots: int, free_start: int, free_end: int) -> Seq<u8> {
    splice(splice(splice(s, 0, le2(slots)), 2, le2(free_start)), 4, le2(free_end))
}

/// The page with another directory entry `i`.
#[verifier::opaque]
pub open spec fn with_slot(s: Seq<u8>, i: int, pos: int, len: int) -> Seq<u8> {
    splice(splice(s, dir_at(i), le2(pos)), dir_at(i) + 2, le2(len))
}

pub proof fn lemma_with_header(s: Seq<u8>, slots: int, free_start: int, free_end: int)
    requires
        s.len() == PAGE_SIZE,
        0 <= slots < 65536,
        0 <= free_start < 65536,
        0 <= free_end < 65536,
    ensures
        ({
            let r = with_header(s, slots, free_start, free_end);
            &&& r.len() == PAGE_SIZE
            &&& slots_of(r) == slots
            &&& free_start_of(r) == free_start
            &&& free_end_of(r) == free_end
            &&& forall|j: int| PAGE_HEADER_SIZE <= j < PAGE_SIZE ==> #[trigger] r[j] == s[j]
        }),
{
    reveal(with_header);
}

pub proof fn lemma_with_slot(s: Seq<u8>, i: int, pos: int, len: int)
    requires
        s.len() == PAGE_SIZE,
        0 <= i,
        slot_id_fits(i),
        0 <= pos < 65536,
        0 <= len < 65536,
    ensures
        ({
            let r = with_slot(s, i, pos, len);
            &&& r.len() == PAGE_SIZE
            &&& slot_pos(r, i) == pos
            &&& slot_len(r, i) == len
            &&& forall|j: int|
                0 <= j < PAGE_SIZE && !(dir_at(i) <= j < dir_at(i) + 4) ==> #[trigger] r[j] == s[j]
        }),
{
    reveal(with_slot);
}

/// Slot `i` holds a record: where it begins.
pub open spec fn record_at(s: Seq<u8>, i: int) -> Option<int> {
    if s.len() == PAGE_SIZE && slot_len(s, i) == PAYLOAD_LEN && slot_pos(s, i) + PAYLOAD_LEN
        <= PAGE_SIZE {
        Some(slot_pos(s, i))
    } else {
        None
    }
}

/// Slot `i` holds a record of `key`: where it begins.
pub open spec fn record_of(s: Seq<u8>, i: int, key: Seq<u8>) -> Option<int> {
    match record_at(s, i) {
        Some(p) => if is_key(key) && s.subrange(p, p + KEY_SIZE) == key {
            Some(p)
        } else {
            None
        },
        None => None,
    }
}

/// Fields of the record that begins at `p`.
pub open spec fn value_at(s: Seq<u8>, p: int) -> Seq<u8> {
    s.subrange(p + KEY_SIZE, p + KEY_SIZE + VALUE_SIZE)
}

pub open spec fn commit_lsn_at(s: Seq<u8>, p: int) -> int {
    u64_at(s, p + 1040)
}

pub open spec fn undo_page_at(s: Seq<u8>, p: int) -> int {
    u64_at(s, p + 1048)
}

pub open spec fn undo_slot_at(s: Seq<u8>, p: int) -> int {
    u16_at(s, p + 1056)
}

pub open spec fn flags_at(s: Seq<u8>, p: int) -> u16 {
    u16_at(s, p + 1058) as u16
}

/// The tombstone bit is set.
pub open spec fn is_tombstone(flags: u16) -> bool {
    flags % 2 == 1
}

/// The first slot of the directory with nothing in it.
pub open spec fn first_free(s: Seq<u8>, i: int) -> int
    decreases slots_of(s) - i,
{
    if i >= slots_of(s) || slot_len(s, i) == 0 {
        i
    } else {
        first_free(s, i + 1)
    }
}

fn read_header(page: &[u8]) -> (r: (u16, u16, u16))
    requires
        page@.len() == PAGE_SIZE,
    ensures
        r.0 == slots_of(page@),
        r.1 == free_start_of(page@),
        r.2 == free_end_of(page@),
{
    (get_u16(page, 0), get_u16(page, 2), get_u16(page, 4))
}

fn write_header(page: &mut Vec<u8>, slots: u16, free_start: u16, free_end: u16)
    requires
        old(page)@.len() == PAGE_SIZE,
    ensures
        final(page)@ == with_header(
            old(page)@,
            slots as int,
            free_start as int,
            free_end as int,
        ),
        final(page)@.len() == PAGE_SIZE,
{
    reveal(with_header);
    set_u16(page, 0, slots);
    set_u16(page, 2, free_start);
    set_u16(page, 4, free_end);
}

fn slot_offset(slot_id: u16) -> (r: usize)
    ensures
        r == dir_at(slot_id as int),
{
    PAGE_HEADER_SIZE + SLOT_ENTRY_SIZE * slot_id as usize
}

/// Offset and length in directory entry `slot_id`.
pub fn read_slot(page: &[u8], slot_id: u16) -> (r: (u16, u16))
    requires
        page@.len() == PAGE_SIZE,
        slot_id_fits(slot_id as int),
    ensures
        r.0 == slot_pos(page@, slot_id as int),
        r.1 == slot_len(page@, slot_id as int),
{
    let offset: usize = slot_offset(slot_id);
    (get_u16(page, offset), get_u16(page, offset + 2))
}

/// Overwrites directory entry `slot_id`.
pub fn write_slot(page: &mut Vec<u8>, slot_id: u16, offset: u16, len: u16)
    requires
        old(page)@.len() == PAGE_SIZE,
        slot_id_fits(slot_id as int),
    ensures
        final(page)@ == with_slot(old(page)@, slot_id as int, offset as int, len as int),
        final(page)@.len() == PAGE_SIZE,
{
    reveal(with_slot);
    let pos: usize = slot_offset(slot_id);
    set_u16(page, pos, offset);
    set_u16(page, pos + 2, len);
}

/// The first free slot of the directory.
fn find_free_slot(page: &[u8], slots: u16) -> (r: Option<u16>)
    requires
        page@.len() == PAGE_SIZE,
        slots == slots_of(page@),
        dir_at(slots as int) <= PAGE_SIZE,
    ensures
        match r {
            Some(i) => i < slots && i == first_free(page@, 0),
            None => first_free(page@, 0) == slots,
        },
{
    let mut i: u16 = 0;
    while i < slots
        invariant
            page@.len() == PAGE_SIZE,
            slots == slots_of(page@),
            dir_at(slots as int) <= PAGE_SIZE,
            i <= slots,
            first_free(page@, 0) == first_free(page@, i as int),
        decreases slots - i,
    {
        let (_, len) = read_slot(page, i);
        if len == 0 {
            return Some(i);
        }
        i += 1;
    }
    None
}

/// Bytes of a record.
pub fn payload_len() -> (r: usize)
    ensures
        r == PAYLOAD_LEN,
{
    KEY_SIZE + VALUE_SIZE + MVCC_HEADER_SIZE
}

/// Where the record in the slot begins, if the slot holds one.
fn slot_payload_offset(page: &[u8], slot_id: u16) -> (r: Option<usize>)
    requires
        page@.len() == PAGE_SIZE ==> slot_id_fits(slot_id as int),
    ensures
        match r {
            Some(p) => record_at(page@, slot_id as int) == Some(p as int),
            None => record_at(page@, slot_id as int) is None,
        },
{
    if page.len() != PAGE_SIZE {
        return None;
    }
    let (pos, len) = read_slot(page, slot_id);
    if len as usize != payload_len() {
        return None;
    }
    if pos as usize + payload_len() > PAGE_SIZE {
        return None;
    }
    Some(pos as usize)
}

/// Where the record of `key` in the slot begins.
fn keyed_offset(page: &[u8], slot_id: u16, key: &[u8]) -> (r: Option<usize>)
    requires
        page@.len() == PAGE_SIZE && is_key(key@) ==> slot_id_fits(slot_id as int),
    ensures
        match r {
            Some(p) => record_of(page@, slot_id as int, key@) == Some(p as int),
            None => record_of(page@, slot_id as int, key@) is None,
        },
{
    if page.len() != PAGE_SIZE || key.len() != KEY_SIZE {
        return None;
    }
    match slot_payload_offset(page, slot_id) {
        Some(p) => {
            if bytes_eq(vstd::slice::slice_subrange(page, p, p + KEY_SIZE), key) {
                Some(p)
            } else {
                None
            }
        },
        None => None,
    }
}

/// A page without slots.
pub fn new_page() -> (r: Page)
    ensures
        bytes_view(r) == with_header(
            zeros(PAGE_SIZE as int),
            0,
            PAGE_HEADER_SIZE as int,
            PAGE_SIZE as int,
        ),
{
    let mut page: Vec<u8> = zeroed(PAGE_SIZE);
    write_header(&mut page, 0, PAGE_HEADER_SIZE as u16, PAGE_SIZE as u16);
    page_from_vec(page)
}

/// Bytes between the directory and the records; zero for a buffer of another size.
pub fn page_free_space(page: &[u8]) -> (r: usize)
    ensures
        r == (if page@.len() == PAGE_SIZE && free_end_of(page@) >= free_start_of(page@) {
            free_end_of(page@) - free_start_of(page@)
        } else {
            0
        }),
{
    if page.len() != PAGE_SIZE {
        return 0;
    }
    let (_slots, free_start, free_end) = read_header(page);
    if free_end >= free_start {
        (free_end - free_start) as usize
    } else {
        0
    }
}

/// Slots in the directory; zero for a buffer of another size.
pub fn slot_count(page: &[u8]) -> (r: u16)
    ensures
        r == (if page@.len() == PAGE_SIZE {
            slots_of(page@)
        } else {
            0
        }),
{
    if page.len() != PAGE_SIZE {
        return 0;
    }
    let (slots, _free_start, _free_end) = read_header(page);
    slots
}

/// Empties a slot.
pub fn clear_slot(page: &mut Vec<u8>, slot_id: u16)
    requires
        old(page)@.len() == PAGE_SIZE ==> slot_id_fits(slot_id as int),
    ensures
        final(page)@ == (if old(page)@.len() == PAGE_SIZE {
            with_slot(old(page)@, slot_id as int, 0, 0)
        } else {
            old(page)@
        }),
{
    if page.len() != PAGE_SIZE {
        return ;
    }
    write_slot(page, slot_id, 0, 0);
}

/// Slot `i` refers past the end of the page.
pub open spec fn slot_outside(s: Seq<u8>, i: int) -> bool {
    slot_len(s, i) != 0 && slot_pos(s, i) + slot_len(s, i) > PAGE_SIZE
}

/// The first slot from `i` on that refers past the end of the page.
pub open spec fn first_outside(s: Seq<u8>, i: int) -> int
    decreases slots_of(s) - i,
{
    if i >= slots_of(s) || slot_outside(s, i) {
        i
    } else {
        first_outside(s, i + 1)
    }
}

/// Bytes that the slots below `n` refer to.
pub open spec fn live_bytes(s: Seq<u8>, n: int) -> int
    decreases n,
{
    if n <= 0 {
        0
    } else {
        live_bytes(s, n - 1) + slot_len(s, n - 1)
    }
}

/// `cur` with the bytes of the slots of `s` below `n` packed at the end of the page.
pub open spec fn packed(s: Seq<u8>, n: int) -> Seq<u8>
    decreases n,
{
    if n <= 0 {
        s
    } else {
        let before = packed(s, n - 1);
        let len = slot_len(s, n - 1);
        if len == 0 {
            before
        } else {
            let pos = PAGE_SIZE - live_bytes(s, n);
            with_slot(splice(before, pos, slot_bytes(s, n - 1)), n - 1, pos, len)
        }
    }
}

/// Defragment payload area by packing all live payloads at the end of the page.
/// Slot ids are preserved; only slot offsets change.
pub fn defragment(page: &mut Vec<u8>) -> (r: Result<()>)
    requires
        old(page)@.len() == PAGE_SIZE ==> {
            let s = old(page)@;
            &&& dir_at(slots_of(s)) <= PAGE_SIZE
            &&& first_outside(s, 0) == slots_of(s) ==> live_bytes(s, slots_of(s)) <= PAGE_SIZE
        },
    ensures
        ({
            let s = old(page)@;
            let n = slots_of(s);
            let bad = first_outside(s, 0);
            if s.len() != PAGE_SIZE {
                &&& r matches Err(Error::InvalidPageSize(a, b)) && a == s.len() && b == PAGE_SIZE
                &&& final(page)@ == s
            } else if bad < n {
                &&& r matches Err(Error::InvalidPageSize(a, b)) && a == slot_pos(s, bad) + slot_len(
                    s,
                    bad,
                ) && b == PAGE_SIZE
                &&& final(page)@ == s
            } else {
                &&& r is Ok
                &&& final(page)@ == defragmented(s)
            }
        }),
{
    if page.len() != PAGE_SIZE {
        return Err(Error::InvalidPageSize(page.len(), PAGE_SIZE));
    }
    let ghost s = page@;
    let (slots, free_start, _free_end) = read_header(page.as_slice());
    let mut live: Vec<Option<Vec<u8>>> = Vec::new();
    let mut i: u16 = 0;
    while i < slots
        invariant
            page@ == s,
            s.len() == PAGE_SIZE,
            slots == slots_of(s),
            dir_at(slots as int) <= PAGE_SIZE,
            i <= slots,
            live@.len() == i,
            first_outside(s, 0) == first_outside(s, i as int),
            forall|j: int|
                0 <= j < i ==> (match #[trigger] live@[j] {
                    Some(b) => slot_len(s, j) != 0 && b@ == slot_bytes(s, j) && b@.len()
                        == slot_len(s, j),
                    None => slot_len(s, j) == 0,
                }),
        decreases slots - i,
    {
        let (pos, len) = read_slot(page.as_slice(), i);
        if len == 0 {
            live.push(None);
            i += 1;
            continue;
        }
        let p: usize = pos as usize;
        let l: usize = len as usize;
        if p + l > PAGE_SIZE {
            return Err(Error::InvalidPageSize(p + l, PAGE_SIZE));
        }
        live.push(Some(copy_range(page.as_slice(), p, p + l)));
        i += 1;
    }
    let mut free_end: usize = PAGE_SIZE;
    let mut k: u16 = 0;
    while k < slots
        invariant
            page@.len() == PAGE_SIZE,
            s.len() == PAGE_SIZE,
            slots == slots_of(s),
            dir_at(slots as int) <= PAGE_SIZE,
            k <= slots,
            live@.len() == slots,
            free_end == PAGE_SIZE - live_bytes(s, k as int),
            free_end <= PAGE_SIZE,
            live_bytes(s, slots as int) <= PAGE_SIZE,
            page@ == packed(s, k as int),
            forall|j: int|
                0 <= j < slots ==> (match #[trigger] live@[j] {
                    Some(b) => slot_len(s, j) != 0 && b@ == slot_bytes(s, j) && b@.len()
                        == slot_len(s, j),
                    None => slot_len(s, j) == 0,
                }),
        decreases slots - k,
    {
        proof {
            lemma_live_grows(s, k + 1, slots as int);
        }
        match &live[k as usize] {
            Some(payload) => {
                let len: usize = payload.len();
                let np: usize = free_end - len;
                set_bytes(page, np, payload.as_slice());
                write_slot(page, k, np as u16, len as u16);
                free_end = np;
            },
            None => {},
        }
        k += 1;
    }
    write_header(page, slots, free_start, free_end as u16);
    Ok(())
}

proof fn lemma_live_grows(s: Seq<u8>, a: int, b: int)
    requires
        0 <= a <= b,
    ensures
        0 <= live_bytes(s, a) <= live_bytes(s, b),
    decreases b,
{
    if a < b {
        lemma_live_grows(s, a, b - 1);
    } else if a > 0 {
        lemma_live_grows(s, a - 1, a - 1);
    }
}

/// The key of the record in the slot.
pub fn read_key(page: &[u8], slot_id: u16) -> (r: Option<Vec<u8>>)
    requires
        page@.len() == PAGE_SIZE ==> slot_id_fits(slot_id as int),
    ensures
        ({
            let p = slot_pos(page@, slot_id as int);
            let there = page@.len() == PAGE_SIZE && slot_len(page@, slot_id as int) == PAYLOAD_LEN
                && p + KEY_SIZE <= PAGE_SIZE;
            match r {
                Some(k) => there && k@ == page@.subrange(p, p + KEY_SIZE),
                None => !there,
            }
        }),
{
    if page.len() != PAGE_SIZE {
        return None;
    }
    let (pos, len) = read_slot(page, slot_id);
    if len as usize != payload_len() {
        return None;
    }
    let p: usize = pos as usize;
    if p + KEY_SIZE > PAGE_SIZE {
        return None;
    }
    Some(copy_range(page, p, p + KEY_SIZE))
}

/// The directory entry of the slot, if there is such a slot.
pub fn debug_slot(page: &[u8], slot_id: u16) -> (r: Option<(u16, u16)>)
    requires
        page@.len() == PAGE_SIZE && slot_id < slots_of(page@) ==> slot_id_fits(slot_id as int),
    ensures
        match r {
            Some(e) => page@.len() == PAGE_SIZE && slot_id < slots_of(page@) && e.0 == slot_pos(
                page@,
                slot_id as int,
            ) && e.1 == slot_len(page@, slot_id as int),
            None => page@.len() != PAGE_SIZE || slot_id >= slots_of(page@),
        },
{
    if page.len() != PAGE_SIZE {
        return None;
    }
    let (slots, _free_start, _free_end) = read_header(page);
    if slot_id >= slots {
        return None;
    }
    Some(read_slot(page, slot_id))
}

/// Read the value at a slot, verifying the key matches.
pub fn read_value(page: &[u8], slot_id: u16, key: &[u8]) -> (r: Option<Vec<u8>>)
    requires
        page@.len() == PAGE_SIZE && is_key(key@) ==> slot_id_fits(slot_id as int),
    ensures
        match record_of(page@, slot_id as int, key@) {
            Some(p) => if is_tombstone(flags_at(page@, p)) {
                r is None
            } else {
                r matches Some(v) && v@ == value_at(page@, p)
            },
            None => r is None,
        },
{
    match keyed_offset(page, slot_id, key) {
        Some(p) => {
            let v0: usize = p + KEY_SIZE;
            let v1: usize = v0 + VALUE_SIZE;
            let flags: u16 = get_u16(page, v1 + 18);
            if flags % 2 == FLAG_TOMBSTONE {
                return None;
            }
            Some(copy_range(page, v0, v1))
        },
        None => None,
    }
}

/// Overwrite value in place at slot, verifying key matches.
///
/// Does not update commit_lsn; caller should set it at commit time.
pub fn overwrite_value(page: &mut Vec<u8>, slot_id: u16, key: &[u8], value: &[u8]) -> (r: Result<
    (),
>)
    requires
        old(page)@.len() == PAGE_SIZE && is_key(key@) && value@.len() == VALUE_SIZE
            ==> slot_id_fits(slot_id as int),
    ensures
        ({
            let s = old(page)@;
            let i = slot_id as int;
            if s.len() != PAGE_SIZE {
                &&& r matches Err(Error::InvalidPageSize(a, b)) && a == s.len() && b == PAGE_SIZE
                &&& final(page)@ == s
            } else if !is_key(key@) {
                &&& r matches Err(Error::InvalidKeySize(a, b)) && a == key@.len() && b == KEY_SIZE
                &&& final(page)@ == s
            } else if value@.len() != VALUE_SIZE {
                &&& r matches Err(Error::InvalidValueSize(a, b)) && a == value@.len() && b
                    == VALUE_SIZE
                &&& final(page)@ == s
            } else if slot_len(s, i) != PAYLOAD_LEN {
                &&& r matches Err(e) && is_io_error(
                    e,
                    IoErrorKind::InvalidInput,
                    "slot empty or wrong length"@,
                )
                &&& final(page)@ == s
            } else if slot_pos(s, i) + PAYLOAD_LEN > PAGE_SIZE {
                &&& r matches Err(Error::InvalidPageSize(a, b)) && a == slot_pos(s, i) + PAYLOAD_LEN
                    && b == PAGE_SIZE
                &&& final(page)@ == s
            } else if record_of(s, i, key@) is None {
                &&& r matches Err(e) && is_io_error(
                    e,
                    IoErrorKind::InvalidInput,
                    "slot key mismatch"@,
                )
                &&& final(page)@ == s
            } else {
                &&& r is Ok
                &&& final(page)@ == splice(s, slot_pos(s, i) + KEY_SIZE, value@)
            }
        }),
        r is Ok ==> {
            let p = slot_pos(old(page)@, slot_id as int);
            &&& value_at(final(page)@, p) == value@
            &&& final(page)@.subrange(p, p + 16) == old(page)@.subrange(p, p + 16)
            &&& final(page)@.subrange(p + 1040, p + 1060) == old(page)@.subrange(p + 1040, p + 1060)
        },
{
    if page.len() != PAGE_SIZE {
        return Err(Error::InvalidPageSize(page.len(), PAGE_SIZE));
    }
    if key.len() != KEY_SIZE {
        return Err(Error::InvalidKeySize(key.len(), KEY_SIZE));
    }
    if value.len() != VALUE_SIZE {
        return Err(Error::InvalidValueSize(value.len(), VALUE_SIZE));
    }
    let (pos, len) = read_slot(page.as_slice(), slot_id);
    if len as usize != payload_len() {
        return Err(io_error(IoErrorKind::InvalidInput, "slot empty or wrong length"));
    }
    let p: usize = pos as usize;
    if p + payload_len() > PAGE_SIZE {
        return Err(Error::InvalidPageSize(p + payload_len(), PAGE_SIZE));
    }
    if !bytes_eq(vstd::slice::slice_subrange(page.as_slice(), p, p + KEY_SIZE), key) {
        return Err(io_error(IoErrorKind::InvalidInput, "slot key mismatch"));
    }
    proof {
        law_value_is_apart(page@, p as int, value@);
    }
    set_bytes(page, p + KEY_SIZE, value);
    Ok(())
}

/// The commit LSN of the record of `key` in the slot.
pub fn read_commit_lsn(page: &[u8], slot_id: u16, key: &[u8]) -> (r: Option<u64>)
    requires
        page@.len() == PAGE_SIZE && is_key(key@) ==> slot_id_fits(slot_id as int),
    ensures
        match record_of(page@, slot_id as int, key@) {
            Some(p) => r matches Some(v) && v == commit_lsn_at(page@, p),
            None => r is None,
        },
{
    match keyed_offset(page, slot_id, key) {
        Some(p) => Some(get_u64(page, p + KEY_SIZE + VALUE_SIZE)),
        None => None,
    }
}

/// Sets the commit LSN of the record in the slot, if there is one.
pub fn write_commit_lsn(page: &mut Vec<u8>, slot_id: u16, commit_lsn: u64)
    requires
        old(page)@.len() == PAGE_SIZE ==> slot_id_fits(slot_id as int),
    ensures
        final(page)@ == (match record_at(old(page)@, slot_id as int) {
            Some(p) => splice(old(page)@, p + 1040, le8(commit_lsn as int)),
            None => old(page)@,
        }),
        record_at(old(page)@, slot_id as int) matches Some(p) ==> {
            &&& commit_lsn_at(final(page)@, p) == commit_lsn
            &&& undo_page_at(final(page)@, p) == undo_page_at(old(page)@, p)
            &&& undo_slot_at(final(page)@, p) == undo_slot_at(old(page)@, p)
            &&& flags_at(final(page)@, p) == flags_at(old(page)@, p)
            &&& final(page)@.subrange(p, p + 1040) == old(page)@.subrange(p, p + 1040)
        },
{
    match slot_payload_offset(page.as_slice(), slot_id) {
        Some(p) => {
            proof {
                law_commit_lsn_is_apart(page@, p as int, commit_lsn);
            }
            set_u64(page, p + KEY_SIZE + VALUE_SIZE, commit_lsn);
        },
        None => {},
    }
}

/// The undo pointer of the record of `key` in the slot.
pub fn read_undo_ptr(page: &[u8], slot_id: u16, key: &[u8]) -> (r: Option<UndoPtr>)
    requires
        page@.len() == PAGE_SIZE && is_key(key@) ==> slot_id_fits(slot_id as int),
    ensures
        match record_of(page@, slot_id as int, key@) {
            Some(p) => match r {
                Some(u) => u.page_id != 0 && u.page_id == undo_page_at(page@, p) && u.slot_id
                    == undo_slot_at(page@, p),
                None => undo_page_at(page@, p) == 0,
            },
            None => r is None,
        },
{
    match keyed_offset(page, slot_id, key) {
        Some(p) => {
            let off: usize = p + KEY_SIZE + VALUE_SIZE + 8;
            let pid: u64 = get_u64(page, off);
            if pid == 0 {
                return None;
            }
            Some(UndoPtr { page_id: pid, slot_id: get_u16(page, off + 8) })
        },
        None => None,
    }
}

/// Sets the undo pointer of the record in the slot, if there is one.
pub fn write_undo_ptr(page: &mut Vec<u8>, slot_id: u16, undo: Option<UndoPtr>)
    requires
        old(page)@.len() == PAGE_SIZE ==> slot_id_fits(slot_id as int),
    ensures
        final(page)@ == (match record_at(old(page)@, slot_id as int) {
            Some(p) => {
                let (pid, sid) = match undo {
                    Some(u) => (u.page_id as int, u.slot_id as int),
                    None => (0, 0),
                };
                splice(splice(old(page)@, p + 1048, le8(pid)), p + 1056, le2(sid))
            },
            None => old(page)@,
        }),
        record_at(old(page)@, slot_id as int) matches Some(p) ==> {
            &&& undo matches Some(u) ==> undo_page_at(final(page)@, p) == u.page_id && undo_slot_at(
                final(page)@,
                p,
            ) == u.slot_id
            &&& undo is None ==> undo_page_at(final(page)@, p) == 0
            &&& commit_lsn_at(final(page)@, p) == commit_lsn_at(old(page)@, p)
            &&& flags_at(final(page)@, p) == flags_at(old(page)@, p)
            &&& final(page)@.subrange(p, p + 1040) == old(page)@.subrange(p, p + 1040)
        },
{
    match slot_payload_offset(page.as_slice(), slot_id) {
        Some(p) => {
            let off: usize = p + KEY_SIZE + VALUE_SIZE + 8;
            let (pid, sid): (u64, u16) = match undo {
                Some(u) => (u.page_id, u.slot_id),
                None => (0, 0),
            };
            proof {
                law_undo_ptr_is_apart(page@, p as int, UndoPtr { page_id: pid, slot_id: sid });
            }
            set_u64(page, off, pid);
            set_u16(page, off + 8, sid);
        },
        None => {},
    }
}

/// The flags of the record of `key` in the slot.
pub fn read_flags(page: &[u8], slot_id: u16, key: &[u8]) -> (r: Option<u16>)
    requires
        page@.len() == PAGE_SIZE && is_key(key@) ==> slot_id_fits(slot_id as int),
    ensures
        match record_of(page@, slot_id as int, key@) {
            Some(p) => r == Some(flags_at(page@, p)),
            None => r is None,
        },
{
    match keyed_offset(page, slot_id, key) {
        Some(p) => Some(get_u16(page, p + KEY_SIZE + VALUE_SIZE + 18)),
        None => None,
    }
}

/// Sets the flags of the record in the slot, if there is one.
pub fn write_flags(page: &mut Vec<u8>, slot_id: u16, flags: u16)
    requires
        old(page)@.len() == PAGE_SIZE ==> slot_id_fits(slot_id as int),
    ensures
        final(page)@ == (match record_at(old(page)@, slot_id as int) {
            Some(p) => splice(old(page)@, p + 1058, le2(flags as int)),
            None => old(page)@,
        }),
        record_at(old(page)@, slot_id as int) matches Some(p) ==> {
            &&& flags_at(final(page)@, p) == flags
            &&& commit_lsn_at(final(page)@, p) == commit_lsn_at(old(page)@, p)
            &&& undo_page_at(final(page)@, p) == undo_page_at(old(page)@, p)
            &&& undo_slot_at(final(page)@, p) == undo_slot_at(old(page)@, p)
            &&& final(page)@.subrange(p, p + 1040) == old(page)@.subrange(p, p + 1040)
        },
{
    match slot_payload_offset(page.as_slice(), slot_id) {
        Some(p) => {
            proof {
                law_flags_are_apart(page@, p as int, flags);
            }
            set_u16(page, p + KEY_SIZE + VALUE_SIZE + 18, flags);
        },
        None => {},
    }
}

/// Sets the tombstone bit of the record in the slot, if there is one.
pub fn mark_tombstone(page: &mut Vec<u8>, slot_id: u16)
    requires
        old(page)@.len() == PAGE_SIZE ==> slot_id_fits(slot_id as int),
    ensures
        final(page)@ == (match record_at(old(page)@, slot_id as int) {
            Some(p) => splice(
                old(page)@,
                p + 1058,
                le2((flags_at(old(page)@, p) | FLAG_TOMBSTONE) as int),
            ),
            None => old(page)@,
        }),
        record_at(old(page)@, slot_id as int) matches Some(p) ==> {
            &&& flags_at(final(page)@, p) & 1u16 == 1u16
            &&& flags_at(final(page)@, p) & 0xfffeu16 == flags_at(old(page)@, p) & 0xfffeu16
            &&& commit_lsn_at(final(page)@, p) == commit_lsn_at(old(page)@, p)
            &&& undo_page_at(final(page)@, p) == undo_page_at(old(page)@, p)
            &&& undo_slot_at(final(page)@, p) == undo_slot_at(old(page)@, p)
            &&& final(page)@.subrange(p, p + 1040) == old(page)@.subrange(p, p + 1040)
        },
{
    match slot_payload_offset(page.as_slice(), slot_id) {
        Some(p) => {
            let flags: u16 = get_u16(page.as_slice(), p + KEY_SIZE + VALUE_SIZE + 18);
            proof {
                law_flags_are_apart(page@, p as int, flags | FLAG_TOMBSTONE);
                assert((flags | 1u16) & 1u16 == 1u16 && (flags | 1u16) & 0xfffeu16 == flags
                    & 0xfffeu16) by (bit_vector);
            }
            set_u16(page, p + KEY_SIZE + VALUE_SIZE + 18, flags | FLAG_TOMBSTONE);
        },
        None => {},
    }
}

/// A record with no version yet.
pub open spec fn fresh_record(key: Seq<u8>, value: Seq<u8>) -> Seq<u8> {
    key + value + zeros(MVCC_HEADER_SIZE as int)
}

/// Whether the directory has a free slot.
pub open spec fn has_free_slot(s: Seq<u8>) -> bool {
    first_free(s, 0) < slots_of(s)
}

/// Bytes that one more record needs.
pub open spec fn needed_bytes(s: Seq<u8>) -> int {
    if has_free_slot(s) {
        PAYLOAD_LEN as int
    } else {
        PAYLOAD_LEN + SLOT_ENTRY_SIZE
    }
}

/// Bytes between the directory and the records.
pub open spec fn free_bytes(s: Seq<u8>) -> int {
    if free_end_of(s) >= free_start_of(s) {
        free_end_of(s) - free_start_of(s)
    } else {
        0
    }
}

/// Bytes that a record in slot `i` needs: a slot behind the directory comes with
/// directory entries up to it.
pub open spec fn needed_at(s: Seq<u8>, i: int) -> int {
    if i < slots_of(s) {
        PAYLOAD_LEN as int
    } else {
        PAYLOAD_LEN + SLOT_ENTRY_SIZE * (i + 1 - slots_of(s))
    }
}

/// The page with empty directory entries from `a` on and before `b`.
pub open spec fn with_empty_slots(s: Seq<u8>, a: int, b: int) -> Seq<u8> {
    if a < b {
        splice(s, dir_at(a), zeros(SLOT_ENTRY_SIZE * (b - a)))
    } else {
        s
    }
}

/// The page after a record was put into slot `i`.
pub open spec fn placed_at(s: Seq<u8>, i: int, key: Seq<u8>, value: Seq<u8>) -> Seq<u8> {
    let n = slots_of(s);
    let pos = free_end_of(s) - PAYLOAD_LEN;
    let body = with_slot(
        splice(with_empty_slots(s, n, i), pos, fresh_record(key, value)),
        i,
        pos,
        PAYLOAD_LEN as int,
    );
    if i < n {
        with_header(body, n, free_start_of(s), pos)
    } else {
        with_header(body, i + 1, free_start_of(s) + SLOT_ENTRY_SIZE * (i + 1 - n), pos)
    }
}

/// The page after a record was put into the first free slot.
pub open spec fn inserted(s: Seq<u8>, key: Seq<u8>, value: Seq<u8>) -> Seq<u8> {
    placed_at(s, first_free(s, 0), key, value)
}

/// What putting a record into slot `i` needs of a page: its directory and free
/// space lie inside it.
pub open spec fn insertable_at(s: Seq<u8>, i: int) -> bool {
    &&& dir_at(slots_of(s)) <= PAGE_SIZE
    &&& free_end_of(s) <= PAGE_SIZE
    &&& needed_at(s, i) <= free_bytes(s) ==> slot_id_fits(i)
}

/// Whether a directory entry lies inside a page.
pub fn slot_is_inside(slot_id: u16) -> (r: bool)
    ensures
        r == slot_id_fits(slot_id as int),
{
    PAGE_HEADER_SIZE + SLOT_ENTRY_SIZE * slot_id as usize + SLOT_ENTRY_SIZE <= PAGE_SIZE
}

/// Whether a page is laid out so that a record can be put into slot `slot_id`; see
/// `insertable_at`.
pub fn takes_slot(page: &[u8], slot_id: u16) -> (r: bool)
    requires
        page@.len() == PAGE_SIZE,
    ensures
        r == insertable_at(page@, slot_id as int),
{
    let (slots, free_start, free_end) = read_header(page);
    if PAGE_HEADER_SIZE + SLOT_ENTRY_SIZE * slots as usize > PAGE_SIZE || free_end as usize
        > PAGE_SIZE {
        return false;
    }
    let free: usize = if free_end >= free_start {
        (free_end - free_start) as usize
    } else {
        0
    };
    let needed: usize = if slot_id < slots {
        PAYLOAD_LEN
    } else {
        PAYLOAD_LEN + SLOT_ENTRY_SIZE * (slot_id as usize + 1 - slots as usize)
    };
    needed > free || slot_is_inside(slot_id)
}

/// Puts a record into slot `slot_id`, for which there is room.
fn place_record(page: &mut Vec<u8>, slot_id: u16, key: &[u8], value: &[u8])
    requires
        old(page)@.len() == PAGE_SIZE,
        is_key(key@),
        value@.len() == VALUE_SIZE,
        insertable_at(old(page)@, slot_id as int),
        needed_at(old(page)@, slot_id as int) <= free_bytes(old(page)@),
    ensures
        final(page)@ == placed_at(old(page)@, slot_id as int, key@, value@),
{
    let (slots, free_start, free_end) = read_header(page.as_slice());
    let (new_slots, new_start): (u16, u16) = if slot_id < slots {
        (slots, free_start)
    } else {
        let more: u16 = slot_id - slots + 1;
        (slot_id + 1, free_start + SLOT_ENTRY_SIZE as u16 * more)
    };
    if slots < slot_id {
        fill_zero(
            page,
            PAGE_HEADER_SIZE + SLOT_ENTRY_SIZE * slots as usize,
            SLOT_ENTRY_SIZE * (slot_id - slots) as usize,
        );
    }
    let offset: usize = free_end as usize - payload_len();
    let mut record: Vec<u8> = Vec::new();
    push_bytes(&mut record, key);
    push_bytes(&mut record, value);
    push_u64(&mut record, 0);
    push_u64(&mut record, 0);
    push_u16(&mut record, 0);
    push_u16(&mut record, 0);
    assert(record@ =~= fresh_record(key@, value@));
    set_bytes(page, offset, record.as_slice());
    write_slot(page, slot_id, offset as u16, payload_len() as u16);
    write_header(page, new_slots, new_start, offset as u16);
}

/// What `insert_record` needs of a page: its directory and free space lie inside it.
pub open spec fn insertable(s: Seq<u8>) -> bool {
    &&& dir_at(slots_of(s)) <= PAGE_SIZE
    &&& free_end_of(s) <= PAGE_SIZE
    &&& needed_bytes(s) <= free_bytes(s) ==> slot_id_fits(first_free(s, 0))
}

/// Insert a record into a slotted page and return the slot id.
///
/// This will reuse a free slot if present; otherwise it will append a new slot directory entry.
pub fn insert_record(page: &mut Vec<u8>, key: &[u8], value: &[u8]) -> (r: Result<u16>)
    requires
        old(page)@.len() == PAGE_SIZE && is_key(key@) && value@.len() == VALUE_SIZE ==> insertable(
            old(page)@,
        ),
    ensures
        ({
            let s = old(page)@;
            if s.len() != PAGE_SIZE {
                &&& r matches Err(Error::InvalidPageSize(a, b)) && a == s.len() && b == PAGE_SIZE
                &&& final(page)@ == s
            } else if !is_key(key@) {
                &&& r matches Err(Error::InvalidKeySize(a, b)) && a == key@.len() && b == KEY_SIZE
                &&& final(page)@ == s
            } else if value@.len() != VALUE_SIZE {
                &&& r matches Err(Error::InvalidValueSize(a, b)) && a == value@.len() && b
                    == VALUE_SIZE
                &&& final(page)@ == s
            } else if free_bytes(s) < needed_bytes(s) {
                &&& r matches Err(Error::InvalidValueSize(a, b)) && a == needed_bytes(s) && b
                    == free_bytes(s)
                &&& final(page)@ == s
            } else {
                &&& r matches Ok(id) && id == first_free(s, 0)
                &&& final(page)@ == inserted(s, key@, value@)
            }
        }),
{
    if page.len() != PAGE_SIZE {
        return Err(Error::InvalidPageSize(page.len(), PAGE_SIZE));
    }
    if key.len() != KEY_SIZE {
        return Err(Error::InvalidKeySize(key.len(), KEY_SIZE));
    }
    if value.len() != VALUE_SIZE {
        return Err(Error::InvalidValueSize(value.len(), VALUE_SIZE));
    }
    let (slots, _free_start, _free_end) = read_header(page.as_slice());
    let free_slot = find_free_slot(page.as_slice(), slots);
    proof {
        lemma_first_free(page@, 0);
    }
    let needed: usize = match free_slot {
        Some(_) => payload_len(),
        None => payload_len() + SLOT_ENTRY_SIZE,
    };
    let free: usize = page_free_space(page.as_slice());
    if free < needed {
        return Err(Error::InvalidValueSize(needed, free));
    }
    let slot_id: u16 = match free_slot {
        Some(i) => i,
        None => slots,
    };
    place_record(page, slot_id, key, value);
    Ok(slot_id)
}

/// The outcome `r` and the page `t` of putting a record into slot `i` of page `s`.
pub open spec fn slot_insert(
    s: Seq<u8>,
    i: int,
    key: Seq<u8>,
    value: Seq<u8>,
    r: Result<()>,
    t: Seq<u8>,
) -> bool {
    if s.len() != PAGE_SIZE {
        &&& r matches Err(Error::InvalidPageSize(a, b)) && a == s.len() && b == PAGE_SIZE
        &&& t == s
    } else if !is_key(key) {
        &&& r matches Err(Error::InvalidKeySize(a, b)) && a == key.len() && b == KEY_SIZE
        &&& t == s
    } else if value.len() != VALUE_SIZE {
        &&& r matches Err(Error::InvalidValueSize(a, b)) && a == value.len() && b == VALUE_SIZE
        &&& t == s
    } else if slot_holds(s, i, key) {
        &&& r is Ok
        &&& t == splice(s, slot_pos(s, i) + KEY_SIZE, value)
    } else if i < slots_of(s) && slot_len(s, i) != 0 {
        &&& r matches Err(e) && is_io_error(e, IoErrorKind::InvalidInput, "wal slot key mismatch"@)
        &&& t == s
    } else if free_bytes(s) < needed_at(s, i) {
        &&& r matches Err(Error::InvalidValueSize(a, b)) && a == needed_at(s, i) && b == free_bytes(
            s,
        )
        &&& t == s
    } else {
        &&& r is Ok
        &&& t == placed_at(s, i, key, value)
    }
}

/// Slot `i` holds a record of `key` that was not deleted.
pub open spec fn slot_holds(s: Seq<u8>, i: int, key: Seq<u8>) -> bool {
    i < slots_of(s) && (record_of(s, i, key) matches Some(p) && !is_tombstone(flags_at(s, p)))
}

/// Insert at a specific slot id and verify existing key (if any) matches.
/// Used by WAL apply paths. A slot behind the directory is reached by empty
/// directory entries.
pub fn insert_record_at_slot_checked(
    page: &mut Vec<u8>,
    slot_id: u16,
    key: &[u8],
    value: &[u8],
) -> (r: Result<()>)
    requires
        old(page)@.len() == PAGE_SIZE && is_key(key@) && value@.len() == VALUE_SIZE 
            ==> insertable_at(old(page)@, slot_id as int),
    ensures
        slot_insert(old(page)@, slot_id as int, key@, value@, r, final(page)@),
{
    if page.len() != PAGE_SIZE {
        return Err(Error::InvalidPageSize(page.len(), PAGE_SIZE));
    }
    if key.len() != KEY_SIZE {
        return Err(Error::InvalidKeySize(key.len(), KEY_SIZE));
    }
    if value.len() != VALUE_SIZE {
        return Err(Error::InvalidValueSize(value.len(), VALUE_SIZE));
    }
    let (slots, _free_start, _free_end) = read_header(page.as_slice());
    if slot_id < slots {
        let existing = read_value(page.as_slice(), slot_id, key);
        if existing.is_some() {
            return overwrite_value(page, slot_id, key, value);
        }
        let (_pos, len) = read_slot(page.as_slice(), slot_id);
        if len != 0 {
            return Err(io_error(IoErrorKind::InvalidInput, "wal slot key mismatch"));
        }
    }
    let needed: usize = if slot_id < slots {
        payload_len()
    } else {
        payload_len() + SLOT_ENTRY_SIZE * ((slot_id - slots) as usize + 1)
    };
    let free: usize = page_free_space(page.as_slice());
    if free < needed {
        return Err(Error::InvalidValueSize(needed, free));
    }
    place_record(page, slot_id, key, value);
    Ok(())
}

/// The first bytes of `input`, filled up with zeros to the size of a key.
pub fn fixed_key_bytes(input: &[u8]) -> (r: Vec<u8>)
    ensures
        is_key(r@),
        forall|i: int|
            0 <= i < KEY_SIZE ==> #[trigger] r@[i] == (if i < input@.len() {
                input@[i]
            } else {
                0u8
            }),
{
    let mut out: Vec<u8> = zeroed(KEY_SIZE);
    let n: usize = if input.len() < KEY_SIZE {
        input.len()
    } else {
        KEY_SIZE
    };
    set_bytes(&mut out, 0, vstd::slice::slice_subrange(input, 0, n));
    out
}

/// Live slots lie behind the free space and do not overlap.
pub open spec fn page_wf(s: Seq<u8>) -> bool {
    &&& s.len() == PAGE_SIZE
    &&& free_start_of(s) == dir_at(slots_of(s))
    &&& free_start_of(s) <= free_end_of(s) <= PAGE_SIZE
    &&& live_bytes(s, slots_of(s)) <= PAGE_SIZE - free_end_of(s)
    &&& forall|i: int|
        0 <= i < slots_of(s) && #[trigger] slot_len(s, i) != 0 ==> free_end_of(s) <= slot_pos(s, i)
            && slot_pos(s, i) + slot_len(s, i) <= PAGE_SIZE
    &&& forall|i: int, j: int|
        0 <= i < slots_of(s) && 0 <= j < slots_of(s) && i != j && #[trigger] slot_len(s, i) != 0
            && #[trigger] slot_len(s, j) != 0 ==> slot_pos(s, i) + slot_len(s, i) <= slot_pos(s, j)
            || slot_pos(s, j) + slot_len(s, j) <= slot_pos(s, i)
}

/// A new page is well formed.
pub proof fn law_new_page_wf()
    ensures
        page_wf(
            with_header(zeros(PAGE_SIZE as int), 0, PAGE_HEADER_SIZE as int, PAGE_SIZE as int),
        ),
{
    let s = with_header(zeros(PAGE_SIZE as int), 0, PAGE_HEADER_SIZE as int, PAGE_SIZE as int);
    lemma_with_header(zeros(PAGE_SIZE as int), 0, PAGE_HEADER_SIZE as int, PAGE_SIZE as int);
}

proof fn lemma_live_same(s: Seq<u8>, s2: Seq<u8>, n: int)
    requires
        forall|i: int| 0 <= i < n ==> slot_len(s2, i) == #[trigger] slot_len(s, i),
    ensures
        live_bytes(s2, n) == live_bytes(s, n),
    decreases n,
{
    if n > 0 {
        lemma_live_same(s, s2, n - 1);
        assert(slot_len(s2, n - 1) == slot_len(s, n - 1));
    }
}

/// Changing the length of one slot changes the sum by the difference.
proof fn lemma_live_update(s: Seq<u8>, s2: Seq<u8>, j: int, n: int)
    requires
        0 <= j < n,
        forall|i: int| 0 <= i < n && i != j ==> slot_len(s2, i) == #[trigger] slot_len(s, i),
    ensures
        live_bytes(s2, n) == live_bytes(s, n) - slot_len(s, j) + slot_len(s2, j),
    decreases n,
{
    if n - 1 == j {
        lemma_live_same(s, s2, n - 1);
    } else {
        lemma_live_update(s, s2, j, n - 1);
        assert(slot_len(s2, n - 1) == slot_len(s, n - 1));
    }
}

proof fn lemma_first_free(s: Seq<u8>, i: int)
    requires
        0 <= i <= slots_of(s),
    ensures
        i <= first_free(s, i) <= slots_of(s),
        first_free(s, i) < slots_of(s) ==> slot_len(s, first_free(s, i)) == 0,
    decreases slots_of(s) - i,
{
    if i < slots_of(s) && slot_len(s, i) != 0 {
        lemma_first_free(s, i + 1);
    }
}

/// A record that fits a well-formed page can be put into a slot that holds none:
/// the page stays well formed, the slot holds the record, and every other slot
/// keeps its bytes.
pub proof fn law_place_keeps_other_slots(s: Seq<u8>, id: int, key: Seq<u8>, value: Seq<u8>)
    requires
        page_wf(s),
        is_key(key),
        value.len() == VALUE_SIZE,
        0 <= id,
        id < slots_of(s) ==> slot_len(s, id) == 0,
        needed_at(s, id) <= free_bytes(s),
    ensures
        insertable_at(s, id),
        page_wf(placed_at(s, id, key, value)),
        record_of(placed_at(s, id, key, value), id, key) == Some(free_end_of(s) - PAYLOAD_LEN),
        value_at(placed_at(s, id, key, value), free_end_of(s) - PAYLOAD_LEN) == value,
        !is_tombstone(flags_at(placed_at(s, id, key, value), free_end_of(s) - PAYLOAD_LEN)),
        slot_holds(placed_at(s, id, key, value), id, key),
        forall|i: int|
            0 <= i < slots_of(s) && i != id && #[trigger] slot_len(s, i) != 0 ==> slot_len(
                placed_at(s, id, key, value),
                i,
            ) == slot_len(s, i) && slot_pos(placed_at(s, id, key, value), i) == slot_pos(s, i)
                && slot_bytes(placed_at(s, id, key, value), i) == slot_bytes(s, i),
{
    let s2 = placed_at(s, id, key, value);
    let pos = free_end_of(s) - PAYLOAD_LEN;
    let n = slots_of(s);
    let n2 = if id < n {
        n
    } else {
        id + 1
    };
    let rec = fresh_record(key, value);
    assert(rec.len() == PAYLOAD_LEN);
    let s0 = with_empty_slots(s, n, id);
    let s1 = splice(s0, pos, rec);
    let body = with_slot(s1, id, pos, PAYLOAD_LEN as int);
    lemma_with_slot(s1, id, pos, PAYLOAD_LEN as int);
    lemma_with_header(body, n2, dir_at(n2), pos);
    assert(forall|j: int| dir_at(n) <= j < dir_at(id) ==> #[trigger] s0[j] == 0);
    assert(forall|j: int|
        PAGE_HEADER_SIZE <= j < PAGE_SIZE && !(dir_at(n) <= j < dir_at(id)) ==> #[trigger] s0[j]
            == s[j]);
    assert(forall|j: int| PAGE_HEADER_SIZE <= j < pos && !(dir_at(id) <= j < dir_at(id) + 4)
        ==> #[trigger] s2[j] == s0[j]);
    assert(forall|j: int| pos <= j < pos + PAYLOAD_LEN ==> #[trigger] s2[j] == rec[j - pos]);
    assert(forall|j: int| pos + PAYLOAD_LEN <= j < PAGE_SIZE ==> #[trigger] s2[j] == s[j]);
    assert(slot_pos(s2, id) == pos);
    assert(slot_len(s2, id) == PAYLOAD_LEN);
    assert forall|i: int| 0 <= i < n && i != id implies #[trigger] slot_len(s2, i) == slot_len(s, i)
        && slot_pos(s2, i) == slot_pos(s, i) by {}
    assert forall|i: int| n <= i < id implies #[trigger] slot_len(s2, i) == 0 by {
        assert(s2[dir_at(i) + 2] == s0[dir_at(i) + 2]);
        assert(s2[dir_at(i) + 3] == s0[dir_at(i) + 3]);
    }
    assert forall|i: int|
        0 <= i < n && i != id && #[trigger] slot_len(s, i) != 0 implies slot_bytes(s2, i)
        == slot_bytes(s, i) by {
        assert(slot_len(s2, i) == slot_len(s, i));
        assert(slot_bytes(s2, i) =~= slot_bytes(s, i));
    }
    if id < n {
        lemma_live_update(s, s2, id, n);
    } else {
        lemma_live_same(s, s2, n);
        lemma_live_empty(s2, n, id);
    }
    assert(s2.subrange(pos, pos + KEY_SIZE) =~= key);
    assert(value_at(s2, pos) =~= value);
    assert(s2[pos + 1058] == 0 && s2[pos + 1059] == 0);
    assert forall|i: int|
        0 <= i < n2 && #[trigger] slot_len(s2, i) != 0 implies free_end_of(s2) <= slot_pos(s2, i)
        && slot_pos(s2, i) + slot_len(s2, i) <= PAGE_SIZE by {
        if i != id {
            assert(i < n);
            assert(slot_len(s, i) != 0);
        }
    }
    assert forall|i: int, j: int|
        0 <= i < n2 && 0 <= j < n2 && i != j && #[trigger] slot_len(s2, i) != 0
            && #[trigger] slot_len(s2, j) != 0 implies slot_pos(s2, i) + slot_len(s2, i) <= slot_pos(
        s2,
        j,
    ) || slot_pos(s2, j) + slot_len(s2, j) <= slot_pos(s2, i) by {
        if i != id {
            assert(i < n && slot_len(s, i) != 0);
        }
        if j != id {
            assert(j < n && slot_len(s, j) != 0);
        }
    }
}

/// Empty slots add nothing.
proof fn lemma_live_empty(s: Seq<u8>, a: int, b: int)
    requires
        0 <= a <= b,
        forall|i: int| a <= i < b ==> #[trigger] slot_len(s, i) == 0,
    ensures
        live_bytes(s, b) == live_bytes(s, a),
    decreases b - a,
{
    if a < b {
        lemma_live_empty(s, a, b - 1);
        assert(slot_len(s, b - 1) == 0);
    }
}

/// A record that fits a well-formed page can be put in: the page stays well
/// formed, the new slot holds the record, and every other slot keeps its bytes.
pub proof fn law_insert_keeps_other_slots(s: Seq<u8>, key: Seq<u8>, value: Seq<u8>)
    requires
        page_wf(s),
        is_key(key),
        value.len() == VALUE_SIZE,
        needed_bytes(s) <= free_bytes(s),
    ensures
        insertable(s),
        page_wf(inserted(s, key, value)),
        record_of(inserted(s, key, value), first_free(s, 0), key) == Some(
            free_end_of(s) - PAYLOAD_LEN,
        ),
        value_at(inserted(s, key, value), free_end_of(s) - PAYLOAD_LEN) == value,
        !is_tombstone(flags_at(inserted(s, key, value), free_end_of(s) - PAYLOAD_LEN)),
        forall|i: int|
            0 <= i < slots_of(s) && i != first_free(s, 0) && #[trigger] slot_len(s, i) != 0
                ==> slot_len(inserted(s, key, value), i) == slot_len(s, i) && slot_pos(
                inserted(s, key, value),
                i,
            ) == slot_pos(s, i) && slot_bytes(inserted(s, key, value), i) == slot_bytes(s, i),
{
    lemma_first_free(s, 0);
    law_place_keeps_other_slots(s, first_free(s, 0), key, value);
}

/// Emptying a slot of a well-formed page leaves a well-formed page in which
/// every other slot keeps its bytes.
pub proof fn law_clear_keeps_other_slots(s: Seq<u8>, id: int)
    requires
        page_wf(s),
        0 <= id < slots_of(s),
    ensures
        page_wf(with_slot(s, id, 0, 0)),
        slot_len(with_slot(s, id, 0, 0), id) == 0,
        forall|i: int|
            0 <= i < slots_of(s) && i != id ==> #[trigger] slot_len(with_slot(s, id, 0, 0), i)
                == slot_len(s, i) && slot_pos(with_slot(s, id, 0, 0), i) == slot_pos(s, i) && (
            slot_len(s, i) != 0 ==> slot_bytes(with_slot(s, id, 0, 0), i) == slot_bytes(s, i)),
{
    let s2 = with_slot(s, id, 0, 0);
    let n = slots_of(s);
    lemma_with_slot(s, id, 0, 0);
    assert(slots_of(s2) == n && free_end_of(s2) == free_end_of(s) && free_start_of(s2)
        == free_start_of(s));
    assert forall|i: int| 0 <= i < n && i != id implies #[trigger] slot_len(s2, i) == slot_len(s, i)
        && slot_pos(s2, i) == slot_pos(s, i) && (slot_len(s, i) != 0 ==> slot_bytes(s2, i)
        == slot_bytes(s, i)) by {
        if slot_len(s, i) != 0 {
            assert(slot_bytes(s2, i) =~= slot_bytes(s, i));
        }
    }
    assert(slot_len(s2, id) == 0);
    lemma_live_update(s, s2, id, n);
    lemma_live_grows(s, 0, n);
    assert forall|i: int|
        0 <= i < n && #[trigger] slot_len(s2, i) != 0 implies free_end_of(s2) <= slot_pos(s2, i)
        && slot_pos(s2, i) + slot_len(s2, i) <= PAGE_SIZE by {
        assert(slot_len(s, i) != 0);
    }
    assert forall|i: int, j: int|
        0 <= i < n && 0 <= j < n && i != j && #[trigger] slot_len(s2, i) != 0 && #[trigger] slot_len(
            s2,
            j,
        ) != 0 implies slot_pos(s2, i) + slot_len(s2, i) <= slot_pos(s2, j) || slot_pos(s2, j)
        + slot_len(s2, j) <= slot_pos(s2, i) by {
        assert(slot_len(s, i) != 0 && slot_len(s, j) != 0);
    }
}

/// The page while it is being packed.
proof fn lemma_packed(s: Seq<u8>, k: int)
    requires
        page_wf(s),
        0 <= k <= slots_of(s),
    ensures
        packed(s, k).len() == PAGE_SIZE,
        0 <= live_bytes(s, k) <= PAGE_SIZE - free_start_of(s),
        forall|i: int| 0 <= i < PAGE_HEADER_SIZE ==> packed(s, k)[i] == s[i],
        forall|i: int|
            0 <= i < slots_of(s) ==> #[trigger] slot_len(packed(s, k), i) == slot_len(s, i),
        forall|i: int|
            0 <= i < k && #[trigger] slot_len(s, i) != 0 ==> slot_pos(packed(s, k), i) == PAGE_SIZE
                - live_bytes(s, i + 1) && slot_bytes(packed(s, k), i) == slot_bytes(s, i),
    decreases k,
{
    let n = slots_of(s);
    if k > 0 {
        lemma_packed(s, k - 1);
        lemma_live_grows(s, k, n);
        let before = packed(s, k - 1);
        let after = packed(s, k);
        let len = slot_len(s, k - 1);
        if len != 0 {
            let pos = PAGE_SIZE - live_bytes(s, k);
            let payload = slot_bytes(s, k - 1);
            assert(payload.len() == len);
            assert(pos >= dir_at(n));
            let mid = splice(before, pos, payload);
            lemma_with_slot(mid, k - 1, pos, len);
            assert(forall|j: int| 0 <= j < pos && !(dir_at(k - 1) <= j < dir_at(k - 1) + 4)
                ==> #[trigger] after[j] == before[j]);
            assert(forall|j: int| pos <= j < pos + len ==> #[trigger] after[j] == payload[j - pos]);
            assert(forall|j: int| pos + len <= j < PAGE_SIZE ==> #[trigger] after[j] == before[j]);
            assert forall|i: int| 0 <= i < n implies #[trigger] slot_len(after, i) == slot_len(
                s,
                i,
            ) by {
                assert(slot_len(before, i) == slot_len(s, i));
            }
            assert forall|i: int|
                0 <= i < k && #[trigger] slot_len(s, i) != 0 implies slot_pos(after, i) == PAGE_SIZE
                - live_bytes(s, i + 1) && slot_bytes(after, i) == slot_bytes(s, i) by {
                if i == k - 1 {
                    assert(slot_pos(after, i) == pos);
                    assert(slot_bytes(after, i) =~= payload);
                } else {
                    lemma_live_grows(s, i + 1, k - 1);
                    lemma_live_grows(s, 0, i);
                    assert(slot_len(before, i) == slot_len(s, i));
                    assert(slot_pos(after, i) == slot_pos(before, i));
                    assert(slot_bytes(after, i) =~= slot_bytes(before, i));
                }
            }
        }
    }
}

proof fn lemma_none_outside(s: Seq<u8>, i: int)
    requires
        page_wf(s),
        0 <= i <= slots_of(s),
    ensures
        first_outside(s, i) == slots_of(s),
    decreases slots_of(s) - i,
{
    if i < slots_of(s) {
        lemma_none_outside(s, i + 1);
    }
}

/// Packing a well-formed page succeeds and leaves a well-formed page in which
/// every slot keeps its bytes, and all free bytes lie together.
pub proof fn law_defragment_keeps_slots(s: Seq<u8>)
    requires
        page_wf(s),
    ensures
        ({
            let n = slots_of(s);
            let s2 = with_header(
                packed(s, n),
                n,
                free_start_of(s),
                PAGE_SIZE - live_bytes(s, n),
            );
            &&& first_outside(s, 0) == n
            &&& live_bytes(s, n) <= PAGE_SIZE
            &&& page_wf(s2)
            &&& free_bytes(s2) == PAGE_SIZE - dir_at(n) - live_bytes(s, n)
            &&& forall|i: int|
                0 <= i < n ==> #[trigger] slot_len(s2, i) == slot_len(s, i) && (slot_len(s, i) != 0
                    ==> slot_bytes(s2, i) == slot_bytes(s, i))
        }),
{
    let n = slots_of(s);
    lemma_none_outside(s, 0);
    lemma_packed(s, n);
    let p = packed(s, n);
    let fe = PAGE_SIZE - live_bytes(s, n);
    let s2 = with_header(p, n, free_start_of(s), fe);
    lemma_with_header(p, n, free_start_of(s), fe);
    assert forall|i: int| 0 <= i < n implies #[trigger] slot_len(s2, i) == slot_len(s, i) && slot_pos(
        s2,
        i,
    ) == slot_pos(p, i) && (slot_len(s, i) != 0 ==> slot_bytes(s2, i) == slot_bytes(s, i)) by {
        assert(slot_len(p, i) == slot_len(s, i));
        if slot_len(s, i) != 0 {
            lemma_live_grows(s, i + 1, n);
            lemma_live_grows(s, 0, i);
            assert(slot_bytes(s2, i) =~= slot_bytes(p, i));
        }
    }
    lemma_live_same(s, s2, n);
    assert forall|i: int|
        0 <= i < n && #[trigger] slot_len(s2, i) != 0 implies free_end_of(s2) <= slot_pos(s2, i)
        && slot_pos(s2, i) + slot_len(s2, i) <= PAGE_SIZE by {
        assert(slot_len(s, i) != 0);
        lemma_live_grows(s, i + 1, n);
        lemma_live_grows(s, 0, i);
    }
    assert forall|i: int, j: int|
        0 <= i < n && 0 <= j < n && i != j && #[trigger] slot_len(s2, i) != 0 && #[trigger] slot_len(
            s2,
            j,
        ) != 0 implies slot_pos(s2, i) + slot_len(s2, i) <= slot_pos(s2, j) || slot_pos(s2, j)
        + slot_len(s2, j) <= slot_pos(s2, i) by {
        assert(slot_len(s, i) != 0 && slot_len(s, j) != 0);
        if i < j {
            lemma_live_grows(s, i + 1, j);
        } else {
            lemma_live_grows(s, j + 1, i);
        }
    }
}

/// The page that `defragment` makes of page `s`.
pub open spec fn defragmented(s: Seq<u8>) -> Seq<u8> {
    let n = slots_of(s);
    with_header(packed(s, n), n, free_start_of(s), PAGE_SIZE - live_bytes(s, n))
}

proof fn lemma_slot_rewritten(s: Seq<u8>, i: int)
    requires
        s.len() == PAGE_SIZE,
        0 <= i,
        slot_id_fits(i),
    ensures
        with_slot(s, i, slot_pos(s, i), slot_len(s, i)) == s,
{
    reveal(with_slot);
    assert(with_slot(s, i, slot_pos(s, i), slot_len(s, i)) =~= s);
}

/// Slots that lie packed stay where they are.
proof fn lemma_packed_twice(s: Seq<u8>, k: int)
    requires
        s.len() == PAGE_SIZE,
        0 <= k,
        dir_at(k) <= PAGE_SIZE,
        forall|i: int|
            0 <= i < k && #[trigger] slot_len(s, i) != 0 ==> slot_pos(s, i) == PAGE_SIZE
                - live_bytes(s, i + 1) && 0 <= slot_pos(s, i) && slot_pos(s, i) + slot_len(s, i)
                <= PAGE_SIZE,
    ensures
        packed(s, k) == s,
    decreases k,
{
    if k > 0 {
        lemma_packed_twice(s, k - 1);
        let i = k - 1;
        if slot_len(s, i) != 0 {
            assert(splice(s, slot_pos(s, i), slot_bytes(s, i)) =~= s);
            lemma_slot_rewritten(s, i);
        }
    }
}

/// A page that was packed is not changed when it is packed again.
pub proof fn law_defragment_once(s: Seq<u8>)
    requires
        page_wf(s),
    ensures
        defragmented(defragmented(s)) == defragmented(s),
{
    let n = slots_of(s);
    let p = packed(s, n);
    let fe = PAGE_SIZE - live_bytes(s, n);
    let s2 = defragmented(s);
    law_defragment_keeps_slots(s);
    lemma_packed(s, n);
    lemma_with_header(p, n, free_start_of(s), fe);
    lemma_live_same(s, s2, n);
    assert forall|i: int| 0 <= i < n && #[trigger] slot_len(s2, i) != 0 implies slot_pos(s2, i)
        == PAGE_SIZE - live_bytes(s2, i + 1) && 0 <= slot_pos(s2, i) && slot_pos(s2, i) + slot_len(
        s2,
        i,
    ) <= PAGE_SIZE by {
        assert(slot_len(s, i) != 0);
        assert(slot_pos(s2, i) == slot_pos(p, i));
        lemma_live_same(s, s2, i + 1);
    }
    lemma_packed_twice(s2, n);
    assert(with_header(s2, n, free_start_of(s2), free_end_of(s2)) =~= s2) by {
        reveal(with_header);
    }
}

/// The value of the record at `p` is its bytes 16 to 1040: another value leaves the key
/// and the version fields.
pub proof fn law_value_is_apart(s: Seq<u8>, p: int, value: Seq<u8>)
    requires
        0 <= p,
        p + 1060 <= s.len(),
        value.len() == 1024,
    ensures
        value_at(splice(s, p + 16, value), p) == value,
        splice(s, p + 16, value).subrange(p, p + 16) == s.subrange(p, p + 16),
        splice(s, p + 16, value).subrange(p + 1040, p + 1060) == s.subrange(p + 1040, p + 1060),
{
    let t = splice(s, p + 16, value);
    assert(value_at(t, p) =~= value);
    assert(t.subrange(p, p + 16) =~= s.subrange(p, p + 16));
    assert(t.subrange(p + 1040, p + 1060) =~= s.subrange(p + 1040, p + 1060));
}

/// Another commit LSN leaves the other fields of a record.
pub proof fn law_commit_lsn_is_apart(s: Seq<u8>, p: int, lsn: u64)
    requires
        0 <= p,
        p + 1060 <= s.len(),
    ensures
        ({
            let t = splice(s, p + 1040, le8(lsn as int));
            &&& commit_lsn_at(t, p) == lsn
            &&& undo_page_at(t, p) == undo_page_at(s, p)
            &&& undo_slot_at(t, p) == undo_slot_at(s, p)
            &&& flags_at(t, p) == flags_at(s, p)
            &&& t.subrange(p, p + 1040) == s.subrange(p, p + 1040)
        }),
{
    let t = splice(s, p + 1040, le8(lsn as int));
    assert(t.subrange(p + 1040, p + 1040 + 8) =~= le8(lsn as int));
    lemma_field8(t, p + 1040, lsn as int);
    assert(t.subrange(p, p + 1040) =~= s.subrange(p, p + 1040));
}

/// Another undo pointer leaves the other fields of a record.
pub proof fn law_undo_ptr_is_apart(s: Seq<u8>, p: int, u: UndoPtr)
    requires
        0 <= p,
        p + 1060 <= s.len(),
    ensures
        ({
            let t = splice(
                splice(s, p + 1048, le8(u.page_id as int)),
                p + 1056,
                le2(u.slot_id as int),
            );
            &&& undo_page_at(t, p) == u.page_id
            &&& undo_slot_at(t, p) == u.slot_id
            &&& commit_lsn_at(t, p) == commit_lsn_at(s, p)
            &&& flags_at(t, p) == flags_at(s, p)
            &&& t.subrange(p, p + 1040) == s.subrange(p, p + 1040)
        }),
{
    let t = splice(splice(s, p + 1048, le8(u.page_id as int)), p + 1056, le2(u.slot_id as int));
    assert(t.subrange(p + 1048, p + 1048 + 8) =~= le8(u.page_id as int));
    lemma_field8(t, p + 1048, u.page_id as int);
    assert(t.subrange(p + 1056, p + 1056 + 2) =~= le2(u.slot_id as int));
    lemma_field2(t, p + 1056, u.slot_id as int);
    assert(t.subrange(p, p + 1040) =~= s.subrange(p, p + 1040));
}

/// Other flags leave the other fields of a record.
pub proof fn law_flags_are_apart(s: Seq<u8>, p: int, flags: u16)
    requires
        0 <= p,
        p + 1060 <= s.len(),
    ensures
        ({
            let t = splice(s, p + 1058, le2(flags as int));
            &&& flags_at(t, p) == flags
            &&& commit_lsn_at(t, p) == commit_lsn_at(s, p)
            &&& undo_page_at(t, p) == undo_page_at(s, p)
            &&& undo_slot_at(t, p) == undo_slot_at(s, p)
            &&& t.subrange(p, p + 1040) == s.subrange(p, p + 1040)
        }),
{
    let t = splice(s, p + 1058, le2(flags as int));
    assert(t.subrange(p + 1058, p + 1058 + 2) =~= le2(flags as int));
    lemma_field2(t, p + 1058, flags as int);
    assert(t.subrange(p, p + 1040) =~= s.subrange(p, p + 1040));
}

/// A record counts as deleted exactly if the lowest bit of its flags is set.
pub proof fn law_tombstone_bit(flags: u16)
    ensures
        is_tombstone(flags) <==> flags & 1u16 != 0,
{
    assert(flags % 2 == 1 <==> flags & 1u16 != 0) by (bit_vector);
}

/// A record goes into the first slot that holds none: all slots before it hold one, and
/// it is behind the directory only if all slots of the directory do.
pub proof fn law_first_free_slot(s: Seq<u8>)
    ensures
        0 <= first_free(s, 0) <= u16_at(s, 0),
        forall|j: int| 0 <= j < first_free(s, 0) ==> #[trigger] slot_len(s, j) != 0,
        first_free(s, 0) < u16_at(s, 0) ==> u16_at(s, 6 + 4 * first_free(s, 0) + 2) == 0,
{
    lemma_slots_before(s, 0);
}

proof fn lemma_slots_before(s: Seq<u8>, i: int)
    requires
        0 <= i <= slots_of(s),
    ensures
        i <= first_free(s, i) <= slots_of(s),
        first_free(s, i) < slots_of(s) ==> slot_len(s, first_free(s, i)) == 0,
        forall|j: int| i <= j < first_free(s, i) ==> #[trigger] slot_len(s, j) != 0,
    decreases slots_of(s) - i,
{
    if i < slots_of(s) && slot_len(s, i) != 0 {
        lemma_slots_before(s, i + 1);
    }
}

/// The first slot that refers past the end of the page: none before it does.
pub proof fn law_first_slot_outside(s: Seq<u8>, i: int)
    requires
        0 <= i <= slots_of(s),
    ensures
        i <= first_outside(s, i) <= slots_of(s),
        forall|j: int|
            i <= j < first_outside(s, i) ==> #[trigger] slot_len(s, j) == 0 || slot_pos(s, j)
                + slot_len(s, j) <= 16384,
        first_outside(s, i) < slots_of(s) ==> slot_len(s, first_outside(s, i)) != 0 && slot_pos(
            s,
            first_outside(s, i),
        ) + slot_len(s, first_outside(s, i)) > 16384,
    decreases slots_of(s) - i,
{
    if i < slots_of(s) && !slot_outside(s, i) {
        law_first_slot_outside(s, i + 1);
    }
}

/// The directory has 4 bytes for each slot from byte 6 on: where its record lies, and how
/// long it is.
pub proof fn law_directory_entry(s: Seq<u8>, i: int)
    ensures
        slot_pos(s, i) == s[6 + 4 * i] + 256 * s[7 + 4 * i],
        slot_len(s, i) == s[8 + 4 * i] + 256 * s[9 + 4 * i],
        slots_of(s) == s[0] + 256 * s[1],
        free_start_of(s) == s[2] + 256 * s[3],
        free_end_of(s) == s[4] + 256 * s[5],
{
}

} // verus!
