//! The log of posting mutations: a chain of pages.
//!
//! ```text
//! 0..8   magic   8..12  version   12..20  next page id   20..22  bytes in use
//! 22..   records: commit LSN, present, name, secondary key, primary key
//! ```
use vstd::prelude::*;

use vstd::string::*;
use vstd::utf8::*;

use crate::common::{bytes_view, io_error, is_io_error, page_from_vec, Error, IoErrorKind, Page,
    PageId, Result, KEY_SIZE, PAGE_SIZE};
use crate::key_map::key_array;
use crate::layout::{bytes_eq, copy_range, get_u16, get_u32, get_u64, le2, le4, le8, lemma_field2,
    lemma_field4, lemma_field8, push_bytes, push_u16, push_u64, set_bytes, set_u16, set_u32, set_u64,
    splice, u16_at, u32_at, u64_at, zeroed, zeros};
use crate::secondary_index::{MutationFields, SecondaryIndexMutation};
use crate::text::{dec, join_num, utf8_error_text, utf8_string};

verus! {

pub const SECONDARY_POSTING_LOG_BASE_PAGE_ID: PageId = 3_000_000;

pub const POSTING_LOG_VERSION: u32 = 1;

pub const OFF_NEXT_PAGE_ID: usize = 12;

pub const OFF_USED: usize = 20;

pub const OFF_DATA: usize = 22;

/// Where the log begins and ends, and which page it takes next.
#[derive(Clone, Copy, Debug, PartialEq, Eq, Structural)]
pub struct SecondaryPostingLogState {
    pub head_page_id: PageId,
    pub tail_page_id: PageId,
    pub next_page_id: PageId,
}

impl Default for SecondaryPostingLogState {
    fn default() -> (r: SecondaryPostingLogState)
        ensures
            r.head_page_id == 0,
            r.tail_page_id == 0,
            r.next_page_id == SECONDARY_POSTING_LOG_BASE_PAGE_ID,
    {
        SecondaryPostingLogState {
            head_page_id: 0,
            tail_page_id: 0,
            next_page_id: SECONDARY_POSTING_LOG_BASE_PAGE_ID,
        }
    }
}

/// `SKPLOG` and two zero bytes.
pub open spec fn posting_magic() -> Seq<u8> {
    seq![83u8, 75, 80, 76, 79, 71, 0, 0]
}

/// The bytes of a log page without records.
pub open spec fn new_log_bytes() -> Seq<u8> {
    splice(
        splice(zeros(PAGE_SIZE as int), 0, posting_magic()),
        8,
        le4(POSTING_LOG_VERSION as int),
    )
}

/// The page is a log page.
pub open spec fn is_log_page(s: Seq<u8>) -> bool {
    s.len() == PAGE_SIZE && s.subrange(0, 8) == posting_magic() && u32_at(s, 8)
        == POSTING_LOG_VERSION
}

/// The error for a page that is no log page.
pub open spec fn log_page_error(s: Seq<u8>, e: Error) -> bool {
    if s.len() != PAGE_SIZE {
        e matches Error::InvalidPageSize(a, b) && a == s.len() && b == PAGE_SIZE
    } else if s.subrange(0, 8) != posting_magic() {
        is_io_error(e, IoErrorKind::InvalidData, "invalid posting log page magic"@)
    } else {
        is_io_error(
            e,
            IoErrorKind::InvalidData,
            "unsupported posting log page version: "@ + dec(u32_at(s, 8)),
        )
    }
}

/// The id of the page that follows.
pub open spec fn next_of(s: Seq<u8>) -> int {
    u64_at(s, OFF_NEXT_PAGE_ID as int)
}

/// Bytes in use.
pub open spec fn used_of(s: Seq<u8>) -> int {
    u16_at(s, OFF_USED as int)
}

/// A record: its commit LSN and the mutation.
pub type PostingRecord = (u64, MutationFields);

/// Bytes of a record before the name.
#[verifier::opaque]
pub open spec fn posting_head(r: PostingRecord) -> Seq<u8> {
    le8(r.0 as int) + seq![
        if r.1.present {
            1u8
        } else {
            0u8
        },
    ] + le2(encode_utf8(r.1.index_name).len() as int)
}

/// The bytes of a record.
pub open spec fn posting_bytes(r: PostingRecord) -> Seq<u8> {
    posting_head(r) + encode_utf8(r.1.index_name) + le2(r.1.secondary_key.len() as int)
        + r.1.secondary_key + r.1.primary_key
}

/// The page after a record was appended.
pub open spec fn appended_page(s: Seq<u8>, r: PostingRecord) -> Seq<u8> {
    splice(
        splice(s, OFF_DATA + used_of(s), posting_bytes(r)),
        OFF_USED as int,
        le2(used_of(s) + posting_bytes(r).len()),
    )
}

/// The record can be written down.
pub open spec fn posting_ok(m: MutationFields) -> bool {
    0 < encode_utf8(m.index_name).len() <= u16::MAX && m.secondary_key.len() <= u16::MAX
}

/// The record at `c` and where the next one begins, or what is wrong with it.
pub open spec fn parse_posting(d: Seq<u8>, c: int) -> std::result::Result<
    (PostingRecord, int),
    Seq<char>,
> {
    if c + 29 > d.len() {
        Err("posting log truncated record"@)
    } else {
        let n = u16_at(d, c + 9);
        if c + 11 + n > d.len() {
            Err("posting log invalid name length"@)
        } else {
            let name = d.subrange(c + 11, c + 11 + n);
            let k = u16_at(d, c + 11 + n);
            if !valid_utf8(name) {
                Err(utf8_error_text(name))
            } else if c + 13 + n > d.len() || c + 29 + n + k > d.len() {
                Err("posting log invalid secondary key length"@)
            } else {
                Ok(
                    (
                        (
                            u64_at(d, c) as u64,
                            MutationFields {
                                index_name: decode_utf8(name),
                                secondary_key: d.subrange(c + 13 + n, c + 13 + n + k),
                                primary_key: d.subrange(c + 13 + n + k, c + 29 + n + k),
                                present: d[c + 8] != 0,
                            },
                        ),
                        c + 29 + n + k,
                    ),
                )
            }
        }
    }
}

/// The records from `c` on.
#[verifier::opaque]
pub open spec fn parse_postings(d: Seq<u8>, c: int) -> std::result::Result<
    Seq<PostingRecord>,
    Seq<char>,
>
    decreases d.len() - c,
{
    if c >= d.len() {
        Ok(seq![])
    } else {
        match parse_posting(d, c) {
            Ok((r, next)) => if next > c {
                after_records(seq![r], parse_postings(d, next))
            } else {
                Ok(seq![])
            },
            Err(m) => Err(m),
        }
    }
}

pub open spec fn after_records(
    rs: Seq<PostingRecord>,
    p: std::result::Result<Seq<PostingRecord>, Seq<char>>,
) -> std::result::Result<Seq<PostingRecord>, Seq<char>> {
    match p {
        Ok(more) => Ok(rs + more),
        Err(m) => Err(m),
    }
}

/// The records of a log page, or what is wrong with them.
pub open spec fn page_records(s: Seq<u8>) -> std::result::Result<Seq<PostingRecord>, Seq<char>> {
    if OFF_DATA + used_of(s) > PAGE_SIZE {
        Err("posting log used bytes out of bounds"@)
    } else {
        parse_postings(s.subrange(OFF_DATA as int, OFF_DATA + used_of(s)), 0)
    }
}

pub open spec fn postings_view(rs: Seq<(u64, SecondaryIndexMutation)>) -> Seq<PostingRecord> {
    Seq::new(rs.len(), |i: int| (rs[i].0, rs[i].1@))
}

/// A log page without records.
pub fn new_log_page() -> (r: Page)
    ensures
        bytes_view(r) == new_log_bytes(),
{
    let mut p: Vec<u8> = zeroed(PAGE_SIZE);
    let magic: [u8; 8] = [83u8, 75, 80, 76, 79, 71, 0, 0];
    assert(magic@ =~= posting_magic());
    set_bytes(&mut p, 0, magic.as_slice());
    set_u32(&mut p, 8, POSTING_LOG_VERSION);
    page_from_vec(p)
}

fn validate_page(page: &[u8]) -> (r: Result<()>)
    ensures
        r is Ok <==> is_log_page(page@),
        r matches Err(e) ==> log_page_error(page@, e),
{
    if page.len() != PAGE_SIZE {
        return Err(Error::InvalidPageSize(page.len(), PAGE_SIZE));
    }
    let magic: [u8; 8] = [83u8, 75, 80, 76, 79, 71, 0, 0];
    assert(magic@ =~= posting_magic());
    if !bytes_eq(vstd::slice::slice_subrange(page, 0, 8), magic.as_slice()) {
        return Err(io_error(IoErrorKind::InvalidData, "invalid posting log page magic"));
    }
    let ver: u32 = get_u32(page, 8);
    if ver != POSTING_LOG_VERSION {
        let m = join_num("unsupported posting log page version: ", ver as u64);
        return Err(io_error(IoErrorKind::InvalidData, m.as_str()));
    }
    Ok(())
}

/// The id of the page that follows.
pub fn read_next_page_id(page: &[u8]) -> (r: Result<PageId>)
    ensures
        match r {
            Ok(id) => is_log_page(page@) && id == next_of(page@),
            Err(e) => !is_log_page(page@) && log_page_error(page@, e),
        },
{
    match validate_page(page) {
        Ok(_) => Ok(get_u64(page, OFF_NEXT_PAGE_ID)),
        Err(e) => Err(e),
    }
}

/// Sets the id of the page that follows.
pub fn write_next_page_id(page: &mut Vec<u8>, next: PageId) -> (r: Result<()>)
    ensures
        match r {
            Ok(_) => is_log_page(old(page)@) && final(page)@ == splice(
                old(page)@,
                OFF_NEXT_PAGE_ID as int,
                le8(next as int),
            ),
            Err(e) => !is_log_page(old(page)@) && final(page)@ == old(page)@ && log_page_error(
                old(page)@,
                e,
            ),
        },
{
    match validate_page(page.as_slice()) {
        Ok(_) => {
            set_u64(page, OFF_NEXT_PAGE_ID, next);
            Ok(())
        },
        Err(e) => Err(e),
    }
}

/// Appends a record; `false` when the page has no room for it.
pub fn append_record(
    page: &mut Vec<u8>,
    commit_lsn: u64,
    mutation: &SecondaryIndexMutation,
) -> (r: Result<bool>)
    ensures
        ({
            let s = old(page)@;
            let m = mutation@;
            if !is_log_page(s) {
                r matches Err(e) && log_page_error(s, e)
            } else if !(0 < encode_utf8(m.index_name).len() <= u16::MAX) {
                r matches Err(e) && is_io_error(
                    e,
                    IoErrorKind::InvalidInput,
                    "invalid index name length"@,
                )
            } else if m.secondary_key.len() > u16::MAX {
                r matches Err(e) && is_io_error(
                    e,
                    IoErrorKind::InvalidInput,
                    "invalid secondary key length"@,
                )
            } else {
                r matches Ok(done) && done == (OFF_DATA + used_of(s) + posting_bytes(
                    (commit_lsn, m),
                ).len() <= PAGE_SIZE)
            }
        }),
        if r matches Ok(done) && done {
            final(page)@ == appended_page(old(page)@, (commit_lsn, mutation@))
        } else {
            final(page)@ == old(page)@
        },
{
    if let Err(e) = validate_page(page.as_slice()) {
        return Err(e);
    }
    let ghost s = page@;
    let ghost m = mutation@;
    let used: usize = get_u16(page.as_slice(), OFF_USED) as usize;
    let name = mutation.index_name.as_str().as_bytes();
    let name_len: usize = name.len();
    if name_len == 0 || name_len > 0xFFFF {
        return Err(io_error(IoErrorKind::InvalidInput, "invalid index name length"));
    }
    let key_len: usize = mutation.secondary_key.len();
    if key_len > 0xFFFF {
        return Err(io_error(IoErrorKind::InvalidInput, "invalid secondary key length"));
    }
    let mut rec: Vec<u8> = Vec::new();
    push_u64(&mut rec, commit_lsn);
    rec.push(if mutation.present { 1u8 } else { 0u8 });
    push_u16(&mut rec, name_len as u16);
    assert(rec@ =~= posting_head((commit_lsn, m))) by {
        reveal(posting_head);
    }
    push_bytes(&mut rec, name);
    push_u16(&mut rec, key_len as u16);
    push_bytes(&mut rec, mutation.secondary_key.as_slice());
    push_bytes(&mut rec, mutation.primary_key.as_slice());
    assert(rec@ =~= posting_bytes((commit_lsn, m)));
    let write_off: usize = OFF_DATA + used;
    proof {
        lemma_posting_len((commit_lsn, m));
    }
    if write_off + rec.len() > PAGE_SIZE {
        return Ok(false);
    }
    set_bytes(page, write_off, rec.as_slice());
    set_u16(page, OFF_USED, (used + rec.len()) as u16);
    Ok(true)
}

proof fn lemma_posting_len(r: PostingRecord)
    ensures
        posting_head(r).len() == 11,
        posting_bytes(r).len() == 13 + encode_utf8(r.1.index_name).len()
            + r.1.secondary_key.len() + r.1.primary_key.len(),
{
    reveal(posting_head);
}

/// The records of a log page.
pub fn decode_records(page: &[u8]) -> (r: Result<Vec<(u64, SecondaryIndexMutation)>>)
    ensures
        if !is_log_page(page@) {
            r matches Err(e) && log_page_error(page@, e)
        } else {
            match page_records(page@) {
                Ok(rs) => r matches Ok(v) && postings_view(v@) == rs,
                Err(m) => r matches Err(e) && is_io_error(e, IoErrorKind::InvalidData, m),
            }
        },
{
    if let Err(e) = validate_page(page) {
        return Err(e);
    }
    let used: usize = get_u16(page, OFF_USED) as usize;
    if OFF_DATA + used > PAGE_SIZE {
        return Err(io_error(IoErrorKind::InvalidData, "posting log used bytes out of bounds"));
    }
    let data = vstd::slice::slice_subrange(page, OFF_DATA, OFF_DATA + used);
    let ghost d = data@;
    let mut out: Vec<(u64, SecondaryIndexMutation)> = Vec::new();
    let mut off: usize = 0;
    assert(after_records(postings_view(out@), parse_postings(d, 0)) == parse_postings(d, 0)) by {
        if let Ok(more) = parse_postings(d, 0) {
            assert(postings_view(out@) + more =~= more);
        }
    }
    while off < used
        invariant
            used <= PAGE_SIZE,
            d == data@,
            d.len() == used,
            off <= used,
            parse_postings(d, 0) == after_records(
                postings_view(out@),
                parse_postings(d, off as int),
            ),
            is_log_page(page@),
            page_records(page@) == parse_postings(d, 0),
        decreases used - off,
    {
        reveal_with_fuel(parse_postings, 1);
        if used - off < 29 {
            return Err(io_error(IoErrorKind::InvalidData, "posting log truncated record"));
        }
        let commit_lsn: u64 = get_u64(data, off);
        let present = data[off + 8] != 0;
        let name_len: usize = get_u16(data, off + 9) as usize;
        let at: usize = off + 11;
        if name_len > used - at {
            return Err(io_error(IoErrorKind::InvalidData, "posting log invalid name length"));
        }
        let name_bytes = vstd::slice::slice_subrange(data, at, at + name_len);
        let index_name = match utf8_string(name_bytes) {
            Ok(t) => t,
            Err(m) => {
                return Err(io_error(IoErrorKind::InvalidData, m.as_str()));
            },
        };
        let at: usize = at + name_len;
        if used - at < 2 {
            return Err(
                io_error(IoErrorKind::InvalidData, "posting log invalid secondary key length"),
            );
        }
        let sec_len: usize = get_u16(data, at) as usize;
        let at: usize = at + 2;
        if used - at < sec_len + KEY_SIZE {
            return Err(
                io_error(IoErrorKind::InvalidData, "posting log invalid secondary key length"),
            );
        }
        let secondary_key = copy_range(data, at, at + sec_len);
        let at: usize = at + sec_len;
        let primary_key = key_array(data, at);
        let rec = SecondaryIndexMutation { index_name, secondary_key, primary_key, present };
        let ghost before = postings_view(out@);
        let ghost fields: PostingRecord = (commit_lsn, rec@);
        let ghost next = at + 16;
        proof {
            assert(fields.1.primary_key =~= d.subrange(at as int, at + 16));
            assert(parse_posting(d, off as int) == Ok::<(PostingRecord, int), Seq<char>>(
                (fields, next),
            ));
        }
        out.push((commit_lsn, rec));
        proof {
            assert(postings_view(out@) =~= before + seq![fields]);
            if let Ok(more) = parse_postings(d, next) {
                assert(before + (seq![fields] + more) =~= (before + seq![fields]) + more);
            }
        }
        off = at + KEY_SIZE;
    }
    reveal_with_fuel(parse_postings, 1);
    assert(postings_view(out@) + Seq::<PostingRecord>::empty() =~= postings_view(out@));
    Ok(out)
}

/// A new page is a log page without records that nothing follows.
pub proof fn law_new_page_is_empty()
    ensures
        is_log_page(new_log_bytes()),
        next_of(new_log_bytes()) == 0,
        used_of(new_log_bytes()) == 0,
        page_records(new_log_bytes()) == Ok::<Seq<PostingRecord>, Seq<char>>(seq![]),
{
    let s = new_log_bytes();
    assert(s.subrange(0, 8) =~= posting_magic());
    assert(s.subrange(8, 12) =~= le4(POSTING_LOG_VERSION as int));
    lemma_field4(s, 8, POSTING_LOG_VERSION as int);
    reveal_with_fuel(parse_postings, 1);
}

/// The fields of a record that stands at `c`.
proof fn lemma_record_at(d: Seq<u8>, c: int, r: PostingRecord)
    requires
        posting_ok(r.1),
        r.1.primary_key.len() == KEY_SIZE,
        0 <= c,
        c + posting_bytes(r).len() == d.len(),
        d.subrange(c, d.len() as int) == posting_bytes(r),
    ensures
        parse_posting(d, c) == Ok::<(PostingRecord, int), Seq<char>>((r, d.len() as int)),
{
    let b = posting_bytes(r);
    let name = encode_utf8(r.1.index_name);
    let n = name.len() as int;
    let k = r.1.secondary_key.len() as int;
    lemma_posting_len(r);
    assert forall|i: int| 0 <= i < b.len() implies d[c + i] == #[trigger] b[i] by {
        assert(d.subrange(c, d.len() as int)[i] == d[c + i]);
    }
    assert(d.subrange(c, c + 8) =~= le8(r.0 as int) && d[c + 8] == (if r.1.present {
        1u8
    } else {
        0u8
    }) && d.subrange(c + 9, c + 11) =~= le2(n)) by {
        let h = posting_head(r);
        assert forall|i: int| 0 <= i < 11 implies d[c + i] == #[trigger] h[i] by {
            assert(b[i] == h[i]);
        }
        reveal(posting_head);
        assert(d.subrange(c, c + 8) =~= le8(r.0 as int));
        assert(h[8] == (if r.1.present {
            1u8
        } else {
            0u8
        }));
        assert(h[9] == le2(n)[0] && h[10] == le2(n)[1]);
        assert(d.subrange(c + 9, c + 11) =~= le2(n));
    }
    lemma_field8(d, c, r.0 as int);
    lemma_field2(d, c + 9, n);
    assert forall|i: int| 0 <= i < n implies d[c + 11 + i] == #[trigger] name[i] by {
        assert(b[11 + i] == name[i]);
    }
    assert(d.subrange(c + 11, c + 11 + n) =~= name);
    assert(b[11 + n] == le2(k)[0] && b[12 + n] == le2(k)[1]);
    assert(d.subrange(c + 11 + n, c + 13 + n) =~= le2(k));
    lemma_field2(d, c + 11 + n, k);
    assert forall|i: int| 0 <= i < k implies d[c + 13 + n + i] == #[trigger] r.1.secondary_key[i] by {
        assert(b[13 + n + i] == r.1.secondary_key[i]);
    }
    assert(d.subrange(c + 13 + n, c + 13 + n + k) =~= r.1.secondary_key);
    assert forall|i: int| 0 <= i < 16 implies d[c + 13 + n + k + i] == #[trigger] r.1.primary_key[i] by {
        assert(b[13 + n + k + i] == r.1.primary_key[i]);
    }
    assert(d.subrange(c + 13 + n + k, c + 29 + n + k) =~= r.1.primary_key);
    encode_utf8_valid_utf8(r.1.index_name);
    encode_utf8_decode_utf8(r.1.index_name);
}

/// A record reads the same with more bytes behind it.
proof fn lemma_record_in_front(d: Seq<u8>, e: Seq<u8>, c: int)
    requires
        0 <= c <= d.len(),
        parse_posting(d, c) is Ok,
        d.len() <= e.len(),
        forall|i: int| 0 <= i < d.len() ==> d[i] == e[i],
    ensures
        parse_posting(e, c) == parse_posting(d, c),
{
    let n = u16_at(d, c + 9);
    let k = u16_at(d, c + 11 + n);
    assert(e.subrange(c + 11, c + 11 + n) =~= d.subrange(c + 11, c + 11 + n));
    assert(e.subrange(c + 13 + n, c + 13 + n + k) =~= d.subrange(c + 13 + n, c + 13 + n + k));
    assert(e.subrange(c + 13 + n + k, c + 29 + n + k) =~= d.subrange(
        c + 13 + n + k,
        c + 29 + n + k,
    ));
}

proof fn lemma_parse_extended(d: Seq<u8>, e: Seq<u8>, c: int, r: PostingRecord)
    requires
        0 <= c <= d.len(),
        parse_postings(d, c) is Ok,
        posting_ok(r.1),
        r.1.primary_key.len() == KEY_SIZE,
        e == d + posting_bytes(r),
    ensures
        parse_postings(e, c) == Ok::<Seq<PostingRecord>, Seq<char>>(
            parse_postings(d, c)->Ok_0.push(r),
        ),
    decreases d.len() - c,
{
    reveal_with_fuel(parse_postings, 1);
    lemma_posting_len(r);
    if c == d.len() {
        assert(e.subrange(c, e.len() as int) =~= posting_bytes(r));
        lemma_record_at(e, c, r);
        assert(parse_postings(e, e.len() as int) == Ok::<Seq<PostingRecord>, Seq<char>>(seq![]));
        assert(seq![r] + Seq::<PostingRecord>::empty() =~= Seq::<PostingRecord>::empty().push(r));
    } else {
        lemma_record_in_front(d, e, c);
        let (q, next) = parse_posting(d, c)->Ok_0;
        lemma_parse_extended(d, e, next, r);
        let more = parse_postings(d, next)->Ok_0;
        assert(seq![q] + more.push(r) =~= (seq![q] + more).push(r));
    }
}

/// A record that was appended is read back behind the records that were there,
/// and the page keeps its place in the chain.
pub proof fn law_append_then_decode(s: Seq<u8>, r: PostingRecord)
    requires
        is_log_page(s),
        page_records(s) is Ok,
        posting_ok(r.1),
        r.1.primary_key.len() == KEY_SIZE,
        OFF_DATA + used_of(s) + posting_bytes(r).len() <= PAGE_SIZE,
    ensures
        is_log_page(appended_page(s, r)),
        next_of(appended_page(s, r)) == next_of(s),
        page_records(appended_page(s, r)) == Ok::<Seq<PostingRecord>, Seq<char>>(
            page_records(s)->Ok_0.push(r),
        ),
{
    let used = used_of(s);
    let b = posting_bytes(r);
    let t = appended_page(s, r);
    assert(t.subrange(0, 8) =~= s.subrange(0, 8));
    assert(t.subrange(20, 22) =~= le2(used + b.len()));
    lemma_field2(t, 20, used + b.len());
    let d = s.subrange(OFF_DATA as int, OFF_DATA + used);
    let e = t.subrange(OFF_DATA as int, OFF_DATA + used_of(t));
    assert(e =~= d + b);
    lemma_parse_extended(d, e, 0, r);
}

/// Linking a page to the next one keeps its records.
pub proof fn law_link_keeps_records(s: Seq<u8>, next: u64)
    requires
        is_log_page(s),
    ensures
        ({
            let t = splice(s, OFF_NEXT_PAGE_ID as int, le8(next as int));
            &&& is_log_page(t)
            &&& next_of(t) == next
            &&& page_records(t) == page_records(s)
        }),
{
    let t = splice(s, OFF_NEXT_PAGE_ID as int, le8(next as int));
    assert(t.subrange(0, 8) =~= s.subrange(0, 8));
    assert(t.subrange(12, 20) =~= le8(next as int));
    lemma_field8(t, 12, next as int);
    let used = used_of(s);
    assert(used_of(t) == used);
    if OFF_DATA + used <= PAGE_SIZE {
        assert(t.subrange(OFF_DATA as int, OFF_DATA + used) =~= s.subrange(
            OFF_DATA as int,
            OFF_DATA + used,
        ));
    }
}

} // verus!
