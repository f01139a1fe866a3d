//! Frames of the write-ahead log.
//!
//! A frame is its length, then the batch: request id, LSN range, the number of
//! records, and the records one after another.
use vstd::prelude::*;

use crate::common::{io_error, is_io_error, Error, IoErrorKind, Result};
use crate::layout::{copy_range, get_u16, get_u32, get_u64, le2, le4, le8, lemma_field2,
    lemma_field4, lemma_field8, push_bytes, push_u16, push_u32, push_u64, u16_at, u32_at, u64_at};
use crate::text::{dec, text_num2};

verus! {

pub const MAX_WAL_FRAME_LEN: usize = 16777216;

/// Storage replays page after-images into the page store.
pub const WAL_OP_PAGE_IMAGE: u8 = 1;

pub const WAL_OP_PAGE_PUT: u8 = 11;

pub const WAL_OP_PAGE_DEL: u8 = 12;

pub const WAL_OP_TXN_PUT: u8 = 21;

pub const WAL_OP_TXN_DEL: u8 = 22;

pub const WAL_OP_TXN_COMMIT: u8 = 23;

/// One log record.
#[derive(Clone, Debug)]
pub struct WalRecord {
    pub lsn: u64,
    pub op: u8,
    pub page_id: u64,
    pub slot_id: u16,
    pub key: Vec<u8>,
    pub value: Vec<u8>,
}

/// Records that become durable together.
#[derive(Clone, Debug)]
pub struct WalBatch {
    pub request_id: u64,
    pub start_lsn: u64,
    /// Right boundary (exclusive). Commit point uses end_lsn.
    pub end_lsn: u64,
    pub records: Vec<WalRecord>,
}

/// What a record says.
#[verifier::ext_equal]
pub struct RecordFields {
    pub lsn: u64,
    pub op: u8,
    pub page_id: u64,
    pub slot_id: u16,
    pub key: Seq<u8>,
    pub value: Seq<u8>,
}

/// What a batch says.
#[verifier::ext_equal]
pub struct BatchFields {
    pub request_id: u64,
    pub start_lsn: u64,
    pub end_lsn: u64,
    pub records: Seq<RecordFields>,
}

impl View for WalRecord {
    type V = RecordFields;

    open spec fn view(&self) -> RecordFields {
        RecordFields {
            lsn: self.lsn,
            op: self.op,
            page_id: self.page_id,
            slot_id: self.slot_id,
            key: self.key@,
            value: self.value@,
        }
    }
}

pub open spec fn records_view(rs: Seq<WalRecord>) -> Seq<RecordFields> {
    Seq::new(rs.len(), |i: int| rs[i]@)
}

impl View for WalBatch {
    type V = BatchFields;

    open spec fn view(&self) -> BatchFields {
        BatchFields {
            request_id: self.request_id,
            start_lsn: self.start_lsn,
            end_lsn: self.end_lsn,
            records: records_view(self.records@),
        }
    }
}

/// Bytes of a record before its key.
#[verifier::opaque]
pub open spec fn record_head(r: RecordFields) -> Seq<u8> {
    le8(r.lsn as int) + seq![r.op] + le8(r.page_id as int) + le2(r.slot_id as int) + le4(
        r.key.len() as int,
    ) + le4(r.value.len() as int)
}

pub open spec fn record_bytes(r: RecordFields) -> Seq<u8> {
    record_head(r) + r.key + r.value
}

pub open spec fn records_bytes(rs: Seq<RecordFields>) -> Seq<u8>
    decreases rs.len(),
{
    if rs.len() == 0 {
        seq![]
    } else {
        record_bytes(rs[0]) + records_bytes(rs.drop_first())
    }
}

/// Bytes of a batch before its records.
#[verifier::opaque]
pub open spec fn batch_head(b: BatchFields) -> Seq<u8> {
    le8(b.request_id as int) + le8(b.start_lsn as int) + le8(b.end_lsn as int) + le4(
        b.records.len() as int,
    )
}

/// A batch without the length in front.
pub open spec fn batch_bytes(b: BatchFields) -> Seq<u8> {
    batch_head(b) + records_bytes(b.records)
}

/// A batch as it stands in the log.
pub open spec fn frame_bytes(b: BatchFields) -> Seq<u8> {
    le4(batch_bytes(b).len() as int) + batch_bytes(b)
}

pub open spec fn records_len(rs: Seq<RecordFields>) -> int
    decreases rs.len(),
{
    if rs.len() == 0 {
        0
    } else {
        27 + rs[0].key.len() + rs[0].value.len() + records_len(rs.drop_first())
    }
}

/// Bytes of a batch without the length in front.
pub open spec fn batch_len(b: BatchFields) -> int {
    28 + records_len(b.records)
}

proof fn lemma_head_len(r: RecordFields)
    ensures
        record_head(r).len() == 27,
{
    reveal(record_head);
}

proof fn lemma_records_len(rs: Seq<RecordFields>)
    ensures
        records_bytes(rs).len() == records_len(rs),
        records_len(rs) >= 27 * rs.len(),
    decreases rs.len(),
{
    if rs.len() > 0 {
        lemma_head_len(rs[0]);
        lemma_records_len(rs.drop_first());
    }
}

/// The length of a frame is that of its batch and four bytes more.
pub proof fn law_frame_len(b: BatchFields)
    ensures
        batch_bytes(b).len() == batch_len(b),
        frame_bytes(b).len() == batch_len(b) + 4,
{
    reveal(batch_head);
    lemma_records_len(b.records);
}

/// One record is no longer than all of them.
proof fn lemma_record_within(rs: Seq<RecordFields>, i: int)
    requires
        0 <= i < rs.len(),
    ensures
        27 + rs[i].key.len() + rs[i].value.len() <= records_len(rs),
    decreases rs.len(),
{
    lemma_records_len(rs.drop_first());
    if i > 0 {
        lemma_record_within(rs.drop_first(), i - 1);
        assert(rs.drop_first()[i - 1] == rs[i]);
    }
}

proof fn lemma_skip(rs: Seq<RecordFields>, i: int)
    requires
        0 <= i < rs.len(),
    ensures
        records_bytes(rs.skip(i)) == record_bytes(rs[i]) + records_bytes(rs.skip(i + 1)),
        records_len(rs.skip(i)) == 27 + rs[i].key.len() + rs[i].value.len() + records_len(
            rs.skip(i + 1),
        ),
{
    assert(rs.skip(i).drop_first() =~= rs.skip(i + 1));
    assert(rs.skip(i)[0] == rs[i]);
}

fn push_record(buf: &mut Vec<u8>, r: &WalRecord)
    requires
        r.key@.len() <= u32::MAX,
        r.value@.len() <= u32::MAX,
    ensures
        final(buf)@ == old(buf)@ + record_bytes(r@),
{
    reveal(record_head);
    push_u64(buf, r.lsn);
    buf.push(r.op);
    push_u64(buf, r.page_id);
    push_u16(buf, r.slot_id);
    push_u32(buf, r.key.len() as u32);
    push_u32(buf, r.value.len() as u32);
    push_bytes(buf, r.key.as_slice());
    push_bytes(buf, r.value.as_slice());
    assert(buf@ =~= old(buf)@ + record_bytes(r@));
}

/// Appends the frame of a batch to `out`.
pub fn encode_wal_batch(batch: &WalBatch, out: &mut Vec<u8>) -> (r: Result<()>)
    ensures
        if batch_len(batch@) <= u32::MAX {
            r is Ok && final(out)@ == old(out)@ + frame_bytes(batch@)
        } else {
            &&& r matches Err(e) && is_io_error(
                e,
                IoErrorKind::InvalidData,
                "wal frame too large to encode into u32 length"@,
            )
            &&& final(out)@ == old(out)@
        },
{
    let ghost b = batch@;
    let ghost rs = b.records;
    proof {
        law_frame_len(b);
        lemma_records_len(rs);
    }
    let n: usize = batch.records.len();
    if n as u64 > 0xFFFF_FFFF {
        return Err(
            io_error(IoErrorKind::InvalidData, "wal frame too large to encode into u32 length"),
        );
    }
    let mut buf: Vec<u8> = Vec::new();
    push_u64(&mut buf, batch.request_id);
    push_u64(&mut buf, batch.start_lsn);
    push_u64(&mut buf, batch.end_lsn);
    push_u32(&mut buf, n as u32);
    assert(buf@ =~= batch_head(b)) by {
        reveal(batch_head);
    }
    assert(rs.skip(0) =~= rs);
    let mut i: usize = 0;
    while i < n
        invariant
            i <= n,
            n == batch.records@.len(),
            rs == records_view(batch.records@),
            b == batch@,
            b.records == rs,
            buf@ + records_bytes(rs.skip(i as int)) == batch_bytes(b),
            batch_bytes(b).len() == batch_len(b),
            out@ == old(out)@,
        decreases n - i,
    {
        let r = &batch.records[i];
        proof {
            lemma_skip(rs, i as int);
            lemma_record_within(rs, i as int);
        }
        if r.key.len() as u64 > 0xFFFF_FFFF || r.value.len() as u64 > 0xFFFF_FFFF {
            return Err(
                io_error(IoErrorKind::InvalidData, "wal frame too large to encode into u32 length"),
            );
        }
        let ghost before = buf@;
        push_record(&mut buf, r);
        assert(buf@ + records_bytes(rs.skip(i + 1)) =~= before + (record_bytes(rs[i as int])
            + records_bytes(rs.skip(i + 1))));
        i += 1;
    }
    assert(rs.skip(n as int) =~= seq![]);
    assert(buf@ =~= batch_bytes(b));
    if buf.len() as u64 > 0xFFFF_FFFF {
        return Err(
            io_error(IoErrorKind::InvalidData, "wal frame too large to encode into u32 length"),
        );
    }
    push_u32(out, buf.len() as u32);
    push_bytes(out, buf.as_slice());
    assert(out@ =~= old(out)@ + frame_bytes(b));
    Ok(())
}

/// Bytes that the frame of a batch takes in the log.
pub fn wal_batch_encoded_len(batch: &WalBatch) -> (r: u64)
    requires
        batch_len(batch@) + 4 <= u64::MAX,
    ensures
        r == batch_len(batch@) + 4,
{
    let ghost rs = batch@.records;
    let n: usize = batch.records.len();
    let mut len: u64 = 32;
    let mut i: usize = 0;
    assert(rs.skip(0) =~= rs);
    while i < n
        invariant
            i <= n,
            n == batch.records@.len(),
            rs == records_view(batch.records@),
            len + records_len(rs.skip(i as int)) == batch_len(batch@) + 4,
            batch_len(batch@) + 4 <= u64::MAX,
        decreases n - i,
    {
        let r = &batch.records[i];
        proof {
            lemma_skip(rs, i as int);
            lemma_records_len(rs.skip(i + 1));
        }
        len = len + 27 + r.key.len() as u64 + r.value.len() as u64;
        i += 1;
    }
    assert(rs.skip(n as int) =~= seq![]);
    len
}

/// What reading yields: a value, or one of the two ways in which bytes can be missing.
pub enum Parsed<T> {
    Done(T),
    /// The fixed part of a batch or a record is cut off.
    BatchCut,
    /// The key or the value of a record is cut off.
    RecordCut,
}

/// The record at `c`, and where the next one begins.
pub open spec fn parse_record(s: Seq<u8>, c: int) -> Parsed<(RecordFields, int)> {
    if c + 27 > s.len() {
        Parsed::BatchCut
    } else {
        let kl = u32_at(s, c + 19);
        let vl = u32_at(s, c + 23);
        if c + 27 + kl + vl > s.len() {
            Parsed::RecordCut
        } else {
            let r = RecordFields {
                lsn: u64_at(s, c) as u64,
                op: s[c + 8],
                page_id: u64_at(s, c + 9) as u64,
                slot_id: u16_at(s, c + 17) as u16,
                key: s.subrange(c + 27, c + 27 + kl),
                value: s.subrange(c + 27 + kl, c + 27 + kl + vl),
            };
            Parsed::Done((r, c + 27 + kl + vl))
        }
    }
}

/// `n` records from `c` on.
#[verifier::opaque]
pub open spec fn parse_records(s: Seq<u8>, c: int, n: int) -> Parsed<Seq<RecordFields>>
    decreases n,
{
    if n <= 0 {
        Parsed::Done(seq![])
    } else {
        match parse_record(s, c) {
            Parsed::Done((r, next)) => prepended(seq![r], parse_records(s, next, n - 1)),
            Parsed::BatchCut => Parsed::BatchCut,
            Parsed::RecordCut => Parsed::RecordCut,
        }
    }
}

pub open spec fn prepended(
    rs: Seq<RecordFields>,
    p: Parsed<Seq<RecordFields>>,
) -> Parsed<Seq<RecordFields>> {
    match p {
        Parsed::Done(more) => Parsed::Done(rs + more),
        _ => p,
    }
}

/// The batch in the bytes of a frame.
pub open spec fn parse_batch(s: Seq<u8>) -> Parsed<BatchFields> {
    if s.len() < 28 {
        Parsed::BatchCut
    } else {
        match parse_records(s, 28, u32_at(s, 24)) {
            Parsed::Done(rs) => Parsed::Done(
                BatchFields {
                    request_id: u64_at(s, 0) as u64,
                    start_lsn: u64_at(s, 8) as u64,
                    end_lsn: u64_at(s, 16) as u64,
                    records: rs,
                },
            ),
            Parsed::BatchCut => Parsed::BatchCut,
            Parsed::RecordCut => Parsed::RecordCut,
        }
    }
}

pub open spec fn batch_cut(e: Error) -> bool {
    is_io_error(e, IoErrorKind::UnexpectedEof, "wal batch truncated"@)
}

pub open spec fn record_cut(e: Error) -> bool {
    is_io_error(e, IoErrorKind::InvalidData, "wal record truncated"@)
}

/// Reads the batch out of the bytes that follow a frame's length.
pub fn decode_wal_batch(buf: &[u8]) -> (r: Result<WalBatch>)
    ensures
        match parse_batch(buf@) {
            Parsed::Done(b) => r matches Ok(v) && v@ == b,
            Parsed::BatchCut => r matches Err(e) && batch_cut(e),
            Parsed::RecordCut => r matches Err(e) && record_cut(e),
        },
{
    let ghost s = buf@;
    let len: usize = buf.len();
    if len < 28 {
        return Err(io_error(IoErrorKind::UnexpectedEof, "wal batch truncated"));
    }
    let count: u32 = get_u32(buf, 24);
    let mut records: Vec<WalRecord> = Vec::new();
    let mut cursor: usize = 28;
    let mut i: u32 = 0;
    assert(prepended(records_view(records@), parse_records(s, 28, count as int)) == parse_records(
        s,
        28,
        count as int,
    )) by {
        match parse_records(s, 28, count as int) {
            Parsed::Done(more) => {
                assert(records_view(records@) + more =~= more);
            },
            _ => {},
        }
    }
    reveal_with_fuel(parse_records, 1);
    while i < count
        invariant
            s == buf@,
            len == s.len(),
            28 <= len,
            28 <= cursor <= len,
            count == u32_at(s, 24),
            i <= count,
            parse_records(s, 28, count as int) == prepended(
                records_view(records@),
                parse_records(s, cursor as int, count - i),
            ),
        decreases count - i,
    {
        reveal_with_fuel(parse_records, 1);
        if len - cursor < 27 {
            return Err(io_error(IoErrorKind::UnexpectedEof, "wal batch truncated"));
        }
        let key_len: usize = get_u32(buf, cursor + 19) as usize;
        let val_len: usize = get_u32(buf, cursor + 23) as usize;
        let rest: usize = len - cursor - 27;
        if key_len > rest || val_len > rest - key_len {
            return Err(io_error(IoErrorKind::InvalidData, "wal record truncated"));
        }
        let k0: usize = cursor + 27;
        let rec = WalRecord {
            lsn: get_u64(buf, cursor),
            op: buf[cursor + 8],
            page_id: get_u64(buf, cursor + 9),
            slot_id: get_u16(buf, cursor + 17),
            key: copy_range(buf, k0, k0 + key_len),
            value: copy_range(buf, k0 + key_len, k0 + key_len + val_len),
        };
        let ghost before = records_view(records@);
        let ghost fields = rec@;
        proof {
            assert(parse_record(s, cursor as int) == Parsed::Done(
                (fields, cursor + 27 + key_len + val_len),
            ));
        }
        records.push(rec);
        proof {
            assert(records_view(records@) =~= before + seq![fields]);
            match parse_records(s, cursor + 27 + key_len + val_len, count - i - 1) {
                Parsed::Done(more) => {
                    assert(before + (seq![fields] + more) =~= (before + seq![fields]) + more);
                },
                _ => {},
            }
        }
        cursor = k0 + key_len + val_len;
        i += 1;
    }
    reveal_with_fuel(parse_records, 1);
    assert(records_view(records@) + Seq::<RecordFields>::empty() =~= records_view(records@));
    Ok(
        WalBatch {
            request_id: get_u64(buf, 0),
            start_lsn: get_u64(buf, 8),
            end_lsn: get_u64(buf, 16),
            records,
        },
    )
}

/// What the next frame of a log is.
pub enum NextFrame {
    /// Fewer than four bytes are left.
    End,
    Empty,
    TooLarge(int),
    /// Shorter than its length says.
    Cut,
    /// The bytes of the batch.
    Body(Seq<u8>),
}

pub open spec fn next_frame(s: Seq<u8>, c: int) -> NextFrame {
    if c + 4 > s.len() {
        NextFrame::End
    } else {
        let n = u32_at(s, c);
        if n == 0 {
            NextFrame::Empty
        } else if n > MAX_WAL_FRAME_LEN {
            NextFrame::TooLarge(n)
        } else if c + 4 + n > s.len() {
            NextFrame::Cut
        } else {
            NextFrame::Body(s.subrange(c + 4, c + 4 + n))
        }
    }
}

/// The length that begins a frame, if a reader accepts it.
pub fn wal_frame_len(n: u32) -> (r: Result<usize>)
    ensures
        if n == 0 {
            r matches Err(e) && is_io_error(e, IoErrorKind::InvalidData, "wal frame is empty"@)
        } else if n > MAX_WAL_FRAME_LEN {
            r matches Err(e) && is_io_error(
                e,
                IoErrorKind::InvalidData,
                "wal frame too large: "@ + dec(n as int) + " > "@ + dec(MAX_WAL_FRAME_LEN as int)
                    + " bytes"@,
            )
        } else {
            r matches Ok(v) && v == n
        },
{
    if n == 0 {
        return Err(io_error(IoErrorKind::InvalidData, "wal frame is empty"));
    }
    if n as usize > MAX_WAL_FRAME_LEN {
        let mut m = text_num2("wal frame too large: ", n as u64, " > ", MAX_WAL_FRAME_LEN as u64);
        m.append(" bytes");
        return Err(io_error(IoErrorKind::InvalidData, m.as_str()));
    }
    Ok(n as usize)
}

/// Reads the frame at `*cursor` of a log; the cursor then stands behind it. Where there
/// is none, or none that can be read, it stays.
pub fn read_wal_batch(log: &[u8], cursor: &mut usize) -> (r: Result<Option<WalBatch>>)
    requires
        *old(cursor) <= log@.len(),
    ensures
        *final(cursor) <= log@.len(),
        !(r matches Ok(Some(_))) ==> *final(cursor) == *old(cursor),
        match next_frame(log@, *old(cursor) as int) {
            NextFrame::End => r == Ok::<Option<WalBatch>, Error>(None),
            NextFrame::Empty => r matches Err(e) && is_io_error(
                e,
                IoErrorKind::InvalidData,
                "wal frame is empty"@,
            ),
            NextFrame::TooLarge(n) => r matches Err(e) && is_io_error(
                e,
                IoErrorKind::InvalidData,
                "wal frame too large: "@ + dec(n) + " > "@ + dec(MAX_WAL_FRAME_LEN as int)
                    + " bytes"@,
            ),
            NextFrame::Cut => r matches Err(e) && is_io_error(
                e,
                IoErrorKind::UnexpectedEof,
                "failed to fill whole buffer"@,
            ),
            NextFrame::Body(body) => match parse_batch(body) {
                Parsed::Done(b) => {
                    &&& r matches Ok(Some(v)) && v@ == b
                    &&& *final(cursor) == *old(cursor) + 4 + body.len()
                },
                Parsed::BatchCut => r matches Err(e) && batch_cut(e),
                Parsed::RecordCut => r matches Err(e) && record_cut(e),
            },
        },
{
    let len: usize = log.len();
    let c: usize = *cursor;
    if len - c < 4 {
        return Ok(None);
    }
    let n: usize = match wal_frame_len(get_u32(log, c)) {
        Ok(n) => n,
        Err(e) => return Err(e),
    };
    if len - c - 4 < n {
        return Err(io_error(IoErrorKind::UnexpectedEof, "failed to fill whole buffer"));
    }
    match decode_wal_batch(vstd::slice::slice_subrange(log, c + 4, c + 4 + n)) {
        Ok(b) => {
            *cursor = c + 4 + n;
            Ok(Some(b))
        },
        Err(e) => Err(e),
    }
}

/// The batches of a log up to its end or its first frame that cannot be read.
#[verifier::opaque]
pub open spec fn log_batches(s: Seq<u8>, c: int) -> Seq<BatchFields>
    decreases s.len() - c,
{
    match next_frame(s, c) {
        NextFrame::Body(body) => match parse_batch(body) {
            Parsed::Done(b) => seq![b] + log_batches(s, c + 4 + u32_at(s, c)),
            _ => seq![],
        },
        _ => seq![],
    }
}

/// The greatest right boundary of some batches, at least zero.
pub open spec fn max_end_lsn(bs: Seq<BatchFields>) -> int
    decreases bs.len(),
{
    if bs.len() == 0 {
        0
    } else {
        let rest = max_end_lsn(bs.drop_first());
        if bs[0].end_lsn > rest {
            bs[0].end_lsn as int
        } else {
            rest
        }
    }
}

/// The greatest right boundary of the batches that can be read from a log segment.
pub fn get_wal_segment_max_lsn(log: &[u8]) -> (r: u64)
    ensures
        r == max_end_lsn(log_batches(log@, 0)),
        forall|i: int|
            0 <= i < log_batches(log@, 0).len() ==> (#[trigger] log_batches(log@, 0)[i]).end_lsn
                <= r,
        log_batches(log@, 0).len() > 0 ==> exists|i: int|
            0 <= i < log_batches(log@, 0).len() && (#[trigger] log_batches(log@, 0)[i]).end_lsn
                == r,
        log_batches(log@, 0).len() == 0 ==> r == 0,
{
    let mut cursor: usize = 0;
    let mut max_lsn: u64 = 0;
    let ghost all = max_end_lsn(log_batches(log@, 0));
    loop
        invariant
            cursor <= log@.len(),
            all == max_end_lsn(log_batches(log@, 0)),
            all == (if max_end_lsn(log_batches(log@, cursor as int)) > max_lsn {
                max_end_lsn(log_batches(log@, cursor as int))
            } else {
                max_lsn as int
            }),
        decreases log@.len() - cursor,
    {
        reveal_with_fuel(log_batches, 1);
        match read_wal_batch(log, &mut cursor) {
            Ok(Some(b)) => {
                proof {
                    let rest = log_batches(log@, cursor as int);
                    assert((seq![b@] + rest).drop_first() =~= rest);
                }
                if b.end_lsn > max_lsn {
                    max_lsn = b.end_lsn;
                }
            },
            _ => {
                proof {
                    law_segment_lsn_bounds_batches(log_batches(log@, 0));
                }
                return max_lsn;
            },
        }
    }
}

proof fn lemma_record_head(s: Seq<u8>, c: int, r: RecordFields)
    requires
        0 <= c,
        c + 27 <= s.len(),
        s.subrange(c, c + 27) == record_head(r),
        r.key.len() <= u32::MAX,
        r.value.len() <= u32::MAX,
    ensures
        u64_at(s, c) == r.lsn,
        s[c + 8] == r.op,
        u64_at(s, c + 9) == r.page_id,
        u16_at(s, c + 17) == r.slot_id,
        u32_at(s, c + 19) == r.key.len(),
        u32_at(s, c + 23) == r.value.len(),
{
    reveal(record_head);
    let b = record_head(r);
    let t = s.subrange(c, c + 27);
    assert(b.subrange(0, 8) =~= le8(r.lsn as int));
    assert(b.subrange(9, 17) =~= le8(r.page_id as int));
    assert(b.subrange(17, 19) =~= le2(r.slot_id as int));
    assert(b.subrange(19, 23) =~= le4(r.key.len() as int));
    assert(b.subrange(23, 27) =~= le4(r.value.len() as int));
    assert(s.subrange(c, c + 8) =~= t.subrange(0, 8));
    assert(s.subrange(c + 9, c + 17) =~= t.subrange(9, 17));
    assert(s.subrange(c + 17, c + 19) =~= t.subrange(17, 19));
    assert(s.subrange(c + 19, c + 23) =~= t.subrange(19, 23));
    assert(s.subrange(c + 23, c + 27) =~= t.subrange(23, 27));
    lemma_field8(s, c, r.lsn as int);
    lemma_field8(s, c + 9, r.page_id as int);
    lemma_field2(s, c + 17, r.slot_id as int);
    lemma_field4(s, c + 19, r.key.len() as int);
    lemma_field4(s, c + 23, r.value.len() as int);
    assert(t[8] == b[8]);
}

proof fn lemma_record_round_trip(s: Seq<u8>, c: int, r: RecordFields)
    requires
        0 <= c,
        c + record_bytes(r).len() <= s.len(),
        s.subrange(c, c + record_bytes(r).len()) == record_bytes(r),
        record_bytes(r).len() <= u32::MAX,
    ensures
        record_bytes(r).len() == 27 + r.key.len() + r.value.len(),
        parse_record(s, c) == Parsed::Done((r, c + record_bytes(r).len())),
{
    let rb = record_bytes(r);
    let next = c + rb.len();
    lemma_head_len(r);
    assert(rb.len() == 27 + r.key.len() + r.value.len());
    assert(s.subrange(c, c + 27) =~= record_head(r)) by {
        assert(rb.subrange(0, 27) =~= record_head(r));
        assert(s.subrange(c, c + 27) =~= s.subrange(c, next).subrange(0, 27));
    }
    lemma_record_head(s, c, r);
    let k = r.key.len() as int;
    assert(s.subrange(c + 27, c + 27 + k) =~= r.key) by {
        assert(rb.subrange(27, 27 + k) =~= r.key);
        assert(s.subrange(c + 27, c + 27 + k) =~= s.subrange(c, next).subrange(27, 27 + k));
    }
    assert(s.subrange(c + 27 + k, next) =~= r.value) by {
        assert(rb.subrange(27 + k, rb.len() as int) =~= r.value);
        assert(s.subrange(c + 27 + k, next) =~= s.subrange(c, next).subrange(
            27 + k,
            rb.len() as int,
        ));
    }
}

proof fn lemma_records_round_trip(s: Seq<u8>, c: int, rs: Seq<RecordFields>)
    requires
        0 <= c,
        c + records_bytes(rs).len() <= s.len(),
        s.subrange(c, c + records_bytes(rs).len()) == records_bytes(rs),
        records_bytes(rs).len() <= u32::MAX,
    ensures
        parse_records(s, c, rs.len() as int) == Parsed::Done(rs),
    decreases rs.len(),
{
    reveal_with_fuel(parse_records, 1);
    if rs.len() > 0 {
        let rb = record_bytes(rs[0]);
        let more = rs.drop_first();
        let mb = records_bytes(more);
        let next = c + rb.len();
        let all = s.subrange(c, c + records_bytes(rs).len());
        assert(all == rb + mb);
        assert(s.subrange(c, next) =~= rb) by {
            assert(all.subrange(0, rb.len() as int) =~= rb);
            assert(s.subrange(c, next) =~= all.subrange(0, rb.len() as int));
        }
        assert(s.subrange(next, next + mb.len()) =~= mb) by {
            assert(all.subrange(rb.len() as int, all.len() as int) =~= mb);
            assert(s.subrange(next, next + mb.len()) =~= all.subrange(
                rb.len() as int,
                all.len() as int,
            ));
        }
        lemma_record_round_trip(s, c, rs[0]);
        lemma_records_round_trip(s, next, more);
        assert(seq![rs[0]] + more =~= rs);
    } else {
        assert(rs =~= seq![]);
    }
}

proof fn lemma_batch_head(s: Seq<u8>, b: BatchFields)
    requires
        s.len() >= 28,
        s.subrange(0, 28) == batch_head(b),
        b.records.len() <= u32::MAX,
    ensures
        u64_at(s, 0) == b.request_id,
        u64_at(s, 8) == b.start_lsn,
        u64_at(s, 16) == b.end_lsn,
        u32_at(s, 24) == b.records.len(),
{
    reveal(batch_head);
    let t = s.subrange(0, 28);
    assert(t.subrange(0, 8) =~= le8(b.request_id as int));
    assert(t.subrange(8, 16) =~= le8(b.start_lsn as int));
    assert(t.subrange(16, 24) =~= le8(b.end_lsn as int));
    assert(t.subrange(24, 28) =~= le4(b.records.len() as int));
    assert(s.subrange(0, 8) =~= t.subrange(0, 8));
    assert(s.subrange(8, 16) =~= t.subrange(8, 16));
    assert(s.subrange(16, 24) =~= t.subrange(16, 24));
    assert(s.subrange(24, 28) =~= t.subrange(24, 28));
    lemma_field8(s, 0, b.request_id as int);
    lemma_field8(s, 8, b.start_lsn as int);
    lemma_field8(s, 16, b.end_lsn as int);
    lemma_field4(s, 24, b.records.len() as int);
}

proof fn lemma_batch_round_trip(b: BatchFields)
    requires
        batch_len(b) <= u32::MAX,
    ensures
        parse_batch(batch_bytes(b)) == Parsed::Done(b),
{
    let s = batch_bytes(b);
    lemma_records_len(b.records);
    assert(batch_head(b).len() == 28) by {
        reveal(batch_head);
    }
    assert(s.subrange(0, 28) =~= batch_head(b));
    lemma_batch_head(s, b);
    assert(s.subrange(28, 28int + records_bytes(b.records).len()) =~= records_bytes(b.records));
    lemma_records_round_trip(s, 28, b.records);
}

/// A batch that was encoded is read back, whatever follows it in the log.
pub proof fn law_frame_round_trip(b: BatchFields, tail: Seq<u8>)
    requires
        batch_len(b) <= MAX_WAL_FRAME_LEN,
    ensures
        next_frame(frame_bytes(b) + tail, 0) == NextFrame::Body(batch_bytes(b)),
        parse_batch(batch_bytes(b)) == Parsed::Done(b),
{
    law_frame_len(b);
    lemma_batch_round_trip(b);
    lemma_frame_behind(seq![], b, tail);
    assert(Seq::<u8>::empty() + (frame_bytes(b) + tail) =~= frame_bytes(b) + tail);
}

/// The bytes of several batches one after another.
pub open spec fn frames_bytes(bs: Seq<BatchFields>) -> Seq<u8>
    decreases bs.len(),
{
    if bs.len() == 0 {
        seq![]
    } else {
        frame_bytes(bs[0]) + frames_bytes(bs.drop_first())
    }
}

/// The frame behind `head`.
proof fn lemma_frame_behind(head: Seq<u8>, b: BatchFields, tail: Seq<u8>)
    requires
        batch_len(b) <= MAX_WAL_FRAME_LEN,
    ensures
        ({
            let s = head + (frame_bytes(b) + tail);
            let c = head.len() as int;
            &&& u32_at(s, c) == batch_len(b)
            &&& next_frame(s, c) == NextFrame::Body(batch_bytes(b))
        }),
{
    law_frame_len(b);
    lemma_records_len(b.records);
    let f = frame_bytes(b) + tail;
    let s = head + f;
    let c = head.len() as int;
    let n = batch_len(b);
    assert(s.subrange(c, c + 4) =~= le4(n));
    lemma_field4(s, c, n);
    assert(s.subrange(c + 4, c + 4 + n) =~= batch_bytes(b));
}

proof fn lemma_log_first(head: Seq<u8>, b: BatchFields, tail: Seq<u8>)
    requires
        batch_len(b) <= MAX_WAL_FRAME_LEN,
    ensures
        ({
            let s = head + (frame_bytes(b) + tail);
            let c = head.len() as int;
            log_batches(s, c) == seq![b] + log_batches(s, c + 4 + batch_len(b))
        }),
{
    lemma_batch_round_trip(b);
    lemma_frame_behind(head, b, tail);
    reveal_with_fuel(log_batches, 1);
}

/// A log that batches were appended to one after another is read back as those batches.
pub proof fn law_log_round_trip(head: Seq<u8>, bs: Seq<BatchFields>)
    requires
        forall|i: int| 0 <= i < bs.len() ==> batch_len(#[trigger] bs[i]) <= MAX_WAL_FRAME_LEN,
    ensures
        log_batches(head + frames_bytes(bs), head.len() as int) == bs,
    decreases bs.len(),
{
    if bs.len() == 0 {
        assert(head + frames_bytes(bs) =~= head);
        assert(log_batches(head, head.len() as int) =~= bs) by {
            reveal_with_fuel(log_batches, 1);
        }
    } else {
        let b = bs[0];
        let more = bs.drop_first();
        let tail = frames_bytes(more);
        law_frame_len(b);
        lemma_log_first(head, b, tail);
        let head2 = head + frame_bytes(b);
        assert(head2 + tail =~= head + (frame_bytes(b) + tail));
        assert forall|i: int| 0 <= i < more.len() implies batch_len(#[trigger] more[i])
            <= MAX_WAL_FRAME_LEN by {
            assert(more[i] == bs[i + 1]);
        }
        law_log_round_trip(head2, more);
        assert(seq![b] + more =~= bs);
    }
}

/// The LSN of a segment bounds its batches: no batch ends beyond it, and where there is
/// a batch, one ends there.
pub proof fn law_segment_lsn_bounds_batches(bs: Seq<BatchFields>)
    ensures
        forall|i: int| 0 <= i < bs.len() ==> (#[trigger] bs[i]).end_lsn <= max_end_lsn(bs),
        bs.len() > 0 ==> exists|i: int|
            0 <= i < bs.len() && (#[trigger] bs[i]).end_lsn == max_end_lsn(bs),
        bs.len() == 0 ==> max_end_lsn(bs) == 0,
    decreases bs.len(),
{
    if bs.len() > 0 {
        let rest = bs.drop_first();
        law_segment_lsn_bounds_batches(rest);
        assert forall|i: int| 0 <= i < bs.len() implies (#[trigger] bs[i]).end_lsn <= max_end_lsn(
            bs,
        ) by {
            if i > 0 {
                assert(rest[i - 1] == bs[i]);
            }
        }
        if bs[0].end_lsn == max_end_lsn(bs) {
            assert(0 <= 0 < bs.len());
        } else {
            let i = choose|i: int|
                0 <= i < rest.len() && (#[trigger] rest[i]).end_lsn == max_end_lsn(rest);
            assert(bs[i + 1] == rest[i]);
        }
    }
}

/// A log whose last frame was cut off, wherever in the frame, is read back without it.
pub proof fn law_torn_frame_is_left_out(head: Seq<u8>, bs: Seq<BatchFields>, b: BatchFields, k: int)
    requires
        forall|i: int| 0 <= i < bs.len() ==> batch_len(#[trigger] bs[i]) <= MAX_WAL_FRAME_LEN,
        batch_len(b) <= MAX_WAL_FRAME_LEN,
        0 <= k < frame_bytes(b).len(),
    ensures
        log_batches(head + (frames_bytes(bs) + frame_bytes(b).take(k)), head.len() as int) == bs,
    decreases bs.len(),
{
    let cut = frame_bytes(b).take(k);
    if bs.len() == 0 {
        let s = head + cut;
        let c = head.len() as int;
        assert(head + (frames_bytes(bs) + cut) =~= s);
        law_frame_len(b);
        lemma_records_len(b.records);
        let n = batch_len(b);
        if k >= 4 {
            assert(s.subrange(c, c + 4) =~= le4(n));
            lemma_field4(s, c, n);
        }
        assert(log_batches(s, c) =~= bs) by {
            reveal_with_fuel(log_batches, 1);
        }
    } else {
        let first = bs[0];
        let more = bs.drop_first();
        let tail = frames_bytes(more) + cut;
        law_frame_len(first);
        lemma_log_first(head, first, tail);
        let head2 = head + frame_bytes(first);
        assert(head + (frames_bytes(bs) + cut) =~= head + (frame_bytes(first) + tail));
        assert(head2 + tail =~= head + (frame_bytes(first) + tail));
        assert forall|i: int| 0 <= i < more.len() implies batch_len(#[trigger] more[i])
            <= MAX_WAL_FRAME_LEN by {
            assert(more[i] == bs[i + 1]);
        }
        law_torn_frame_is_left_out(head2, more, b, k);
        assert(seq![first] + more =~= bs);
    }
}

/// What stands where in a frame: how many bytes follow, the request id, the LSNs from
/// which to which the batch goes, and the number of its records.
pub proof fn law_frame_layout(b: BatchFields)
    requires
        batch_len(b) <= MAX_WAL_FRAME_LEN,
    ensures
        ({
            let f = frame_bytes(b);
            &&& f.len() >= 32
            &&& u32_at(f, 0) == f.len() - 4
            &&& u64_at(f, 4) == b.request_id
            &&& u64_at(f, 12) == b.start_lsn
            &&& u64_at(f, 20) == b.end_lsn
            &&& u32_at(f, 28) == b.records.len()
        }),
{
    law_frame_len(b);
    lemma_records_len(b.records);
    let s = batch_bytes(b);
    let f = frame_bytes(b);
    assert(batch_head(b).len() == 28) by {
        reveal(batch_head);
    }
    assert(s.subrange(0, 28) =~= batch_head(b));
    lemma_batch_head(s, b);
    assert(f.subrange(0, 4) =~= le4(batch_len(b)));
    lemma_field4(f, 0, batch_len(b));
    assert forall|i: int| 0 <= i < 28 implies #[trigger] f[i + 4] == s[i] by {}
    assert(u64_at(f, 4) == u64_at(s, 0)) by {
        assert(f[4] == s[0] && f[5] == s[1] && f[6] == s[2] && f[7] == s[3] && f[8] == s[4] && f[9]
            == s[5] && f[10] == s[6] && f[11] == s[7]);
    }
    assert(u64_at(f, 12) == u64_at(s, 8)) by {
        assert(f[12] == s[8] && f[13] == s[9] && f[14] == s[10] && f[15] == s[11] && f[16] == s[12]
            && f[17] == s[13] && f[18] == s[14] && f[19] == s[15]);
    }
    assert(u64_at(f, 20) == u64_at(s, 16)) by {
        assert(f[20] == s[16] && f[21] == s[17] && f[22] == s[18] && f[23] == s[19] && f[24]
            == s[20] && f[25] == s[21] && f[26] == s[22] && f[27] == s[23]);
    }
    assert(u32_at(f, 28) == u32_at(s, 24)) by {
        assert(f[28] == s[24] && f[29] == s[25] && f[30] == s[26] && f[31] == s[27]);
    }
}

} // verus!
