//! The log and the snapshots of the transactional store.
//!
//! A log record is a magic number, the length and the CRC-32 of a payload, and
//! the payload: commit timestamp, number of writes, and the writes. A snapshot
//! is a magic number, a version, a timestamp, and the newest value of each row.
use vstd::prelude::*;

use super::error::{Result, TxnError};
use crate::common::{Value, KEY_SIZE, VALUE_SIZE};
use crate::key_map::{has_key, key_array, key_place, lemma_place, KeyMap};
use crate::layout::{copy_bytes, copy_range, get_u32, get_u64, le4, le8, lemma_field4, lemma_field8, push_bytes,
    push_u32, push_u64, u32_at, u64_at};
use vstd::string::*;

verus! {

/// `SKVW`.
pub const WAL_MAGIC: u32 = 0x534B5657;

/// Bytes of a log record before its payload.
pub const WAL_HEADER_LEN: usize = 12;

/// `SSNP`.
pub const SNAPSHOT_MAGIC: u32 = 0x53534E50;

pub const SNAPSHOT_VERSION: u32 = 1;

pub type Key = [u8; KEY_SIZE];

/// A write of a transaction: a value, or none when the row is deleted.
pub type WalOp = (Key, Option<Value>);

/// The writes of a transaction, by key.
pub type WriteSet = KeyMap<Option<Value>>;

/// The state of a row from `commit_ts` on; no value when it was deleted.
#[derive(Debug)]
pub struct Version {
    pub commit_ts: u64,
    pub value: Option<Value>,
}

/// What a version says.
#[verifier::ext_equal]
pub struct VersionFields {
    pub commit_ts: u64,
    pub value: Option<Seq<u8>>,
}

pub open spec fn value_fields(v: Option<Value>) -> Option<Seq<u8>> {
    match v {
        Some(b) => Some(b@),
        None => None,
    }
}

impl View for Version {
    type V = VersionFields;

    open spec fn view(&self) -> VersionFields {
        VersionFields { commit_ts: self.commit_ts, value: value_fields(self.value) }
    }
}

pub open spec fn versions_view(vs: Seq<Version>) -> Seq<VersionFields> {
    Seq::new(vs.len(), |i: int| vs[i]@)
}

/// The versions of every row, in the order in which they were committed.
#[derive(Debug)]
pub struct TxnStore {
    pub rows: KeyMap<Vec<Version>>,
}

impl TxnStore {
    pub open spec fn wf(&self) -> bool {
        self.rows.wf()
    }

    /// The versions of a row, none if it was never written.
    pub open spec fn history(&self, k: Seq<u8>) -> Seq<VersionFields> {
        if self.rows.has(k) {
            versions_view(self.rows.at(k)@)
        } else {
            seq![]
        }
    }

    pub fn new() -> (r: TxnStore)
        ensures
            r.wf(),
            forall|k: Seq<u8>| #[trigger] r.history(k) == Seq::<VersionFields>::empty(),
            forall|k: Seq<u8>| !#[trigger] r.rows.has(k),
    {
        TxnStore { rows: KeyMap::new() }
    }

    /// Adds a version to a row.
    pub fn push_version(&mut self, key: Key, version: Version)
        requires
            old(self).wf(),
        ensures
            final(self).wf(),
            forall|k: Seq<u8>| #[trigger]
                final(self).history(k) == if k == key@ {
                    old(self).history(k).push(version@)
                } else {
                    old(self).history(k)
                },
    {
        let ghost a = self.rows;
        let ghost v = version@;
        match self.rows.find(key.as_slice()) {
            Ok(i) => {
                let entry = &mut self.rows.entries[i];
                entry.1.push(version);
                proof {
                    let es = a.entries@;
                    let fs = self.rows.entries@;
                    assert forall|x: int| 0 <= x < es.len() implies (#[trigger] fs[x]).0 == es[x].0 by {}
                    assert(self.rows.wf()) by {
                        assert forall|x: int, y: int| 0 <= x < y < fs.len() implies crate::key_order::lex_lt(
                            (#[trigger] fs[x]).0@,
                            (#[trigger] fs[y]).0@,
                        ) by {
                            assert(crate::key_order::lex_lt(es[x].0@, es[y].0@));
                        }
                    }
                    assert(versions_view(fs[i as int].1@) =~= versions_view(
                        es[i as int].1@,
                    ).push(v));
                    assert forall|k: Seq<u8>| #[trigger] self.history(k) == if k == key@ {
                        old(self).history(k).push(v)
                    } else {
                        old(self).history(k)
                    } by {
                        lemma_place(fs, i as int);
                        if has_key(fs, k) {
                            let x = key_place(fs, k);
                            assert(es[x].0@ == k);
                            lemma_place(es, x);
                        } else if has_key(es, k) {
                            let x = key_place(es, k);
                            assert(fs[x].0@ == k);
                        }
                    }
                }
            },
            Err(_) => {
                let mut versions: Vec<Version> = Vec::new();
                versions.push(version);
                self.rows.insert(key, versions);
                proof {
                    assert(versions_view(versions@) =~= Seq::<VersionFields>::empty().push(v));
                }
            },
        }
    }
}

/// What a write says.
#[verifier::ext_equal]
pub struct OpFields {
    pub key: Seq<u8>,
    pub value: Option<Seq<u8>>,
}

pub open spec fn ops_view(ops: Seq<WalOp>) -> Seq<OpFields> {
    Seq::new(ops.len(), |i: int| OpFields { key: ops[i].0@, value: value_fields(ops[i].1) })
}

/// Bytes of a write.
pub open spec fn op_bytes(o: OpFields) -> Seq<u8> {
    match o.value {
        Some(v) => o.key + seq![1u8] + le4(v.len() as int) + v,
        None => o.key + seq![0u8],
    }
}

/// The first `n` writes one after another.
pub open spec fn ops_bytes(ops: Seq<OpFields>, n: int) -> Seq<u8>
    decreases n,
{
    if n <= 0 {
        seq![]
    } else {
        ops_bytes(ops, n - 1) + op_bytes(ops[n - 1])
    }
}

#[verifier::opaque]
pub open spec fn payload_head(ts: u64, n: int) -> Seq<u8> {
    le8(ts as int) + le4(n)
}

/// The payload of a log record.
pub open spec fn payload_bytes(ts: u64, ops: Seq<OpFields>) -> Seq<u8> {
    payload_head(ts, ops.len() as int) + ops_bytes(ops, ops.len() as int)
}

/// The value is not longer than a row value may be.
pub open spec fn value_ok(v: Option<Seq<u8>>) -> bool {
    v matches Some(b) ==> b.len() <= VALUE_SIZE
}

/// All values are short enough.
pub open spec fn ops_ok(ops: Seq<OpFields>) -> bool {
    forall|i: int| 0 <= i < ops.len() ==> value_ok((#[trigger] ops[i]).value)
}

/// The write at `i` is the first with a value that is too long.
pub open spec fn first_long(ops: Seq<OpFields>, i: int) -> bool {
    &&& 0 <= i < ops.len()
    &&& !value_ok(ops[i].value)
    &&& forall|j: int| 0 <= j < i ==> value_ok((#[trigger] ops[j]).value)
}

pub open spec fn is_corrupt(e: TxnError, m: Seq<char>) -> bool {
    e matches TxnError::CorruptWal(t) && t@ == m
}

pub(crate) fn corrupt(m: &str) -> (r: TxnError)
    ensures
        is_corrupt(r, m@),
{
    TxnError::CorruptWal(String::from_str(m))
}

/// The payload of a transaction's log record.
pub fn encode_payload(commit_ts: u64, writes: &WriteSet) -> (r: Result<Vec<u8>>)
    ensures
        ({
            let ops = ops_view(writes.entries@);
            if ops.len() > u32::MAX {
                r matches Err(e) && is_corrupt(e, "too many ops"@)
            } else if ops_ok(ops) {
                r matches Ok(b) && b@ == payload_bytes(commit_ts, ops)
            } else {
                r matches Err(TxnError::InvalidValueSize(a, b)) && b == VALUE_SIZE && exists|i: int|
                    #[trigger] first_long(ops, i) && a == ops[i].value->0.len()
            }
        }),
{
    let ghost ops = ops_view(writes.entries@);
    let n: usize = writes.entries.len();
    if n as u64 > 0xFFFF_FFFF {
        return Err(corrupt("too many ops"));
    }
    let mut buf: Vec<u8> = Vec::new();
    push_u64(&mut buf, commit_ts);
    push_u32(&mut buf, n as u32);
    assert(buf@ =~= payload_head(commit_ts, n as int)) by {
        reveal(payload_head);
    }
    assert(buf@ =~= payload_head(commit_ts, n as int) + ops_bytes(ops, 0));
    let mut i: usize = 0;
    while i < n
        invariant
            n == writes.entries@.len(),
            ops == ops_view(writes.entries@),
            n <= u32::MAX,
            i <= n,
            buf@ == payload_head(commit_ts, n as int) + ops_bytes(ops, i as int),
            forall|j: int| 0 <= j < i ==> value_ok((#[trigger] ops[j]).value),
        decreases n - i,
    {
        let ghost before = buf@;
        let ghost op = ops[i as int];
        push_bytes(&mut buf, writes.entries[i].0.as_slice());
        match &writes.entries[i].1 {
            Some(v) => {
                let len: usize = v.len();
                if len > VALUE_SIZE {
                    assert(first_long(ops, i as int));
                    return Err(TxnError::InvalidValueSize(len, VALUE_SIZE));
                }
                buf.push(1);
                push_u32(&mut buf, len as u32);
                push_bytes(&mut buf, v.as_slice());
            },
            None => {
                buf.push(0);
            },
        }
        assert(buf@ =~= before + op_bytes(op));
        assert(buf@ =~= payload_head(commit_ts, n as int) + ops_bytes(ops, i + 1));
        i += 1;
    }
    Ok(buf)
}

/// What is wrong with the bytes of a payload or of a snapshot.
pub enum CodecFault {
    Corrupt(Seq<char>),
    /// A value of this length is too long.
    LongValue(int),
}

pub open spec fn is_fault(f: CodecFault, e: TxnError) -> bool {
    match f {
        CodecFault::Corrupt(m) => is_corrupt(e, m),
        CodecFault::LongValue(n) => e matches TxnError::InvalidValueSize(a, b) && a == n && b
            == VALUE_SIZE,
    }
}

/// The write at `c` and where the next one begins.
pub open spec fn parse_op(s: Seq<u8>, c: int) -> std::result::Result<(OpFields, int), CodecFault> {
    if c + 17 > s.len() {
        Err(CodecFault::Corrupt("payload truncated"@))
    } else {
        let key = s.subrange(c, c + 16);
        if s[c + 16] == 0 {
            Ok((OpFields { key, value: None }, c + 17))
        } else if s[c + 16] == 1 {
            let n = u32_at(s, c + 17);
            if c + 21 > s.len() {
                Err(CodecFault::Corrupt("payload truncated"@))
            } else if n > VALUE_SIZE {
                Err(CodecFault::LongValue(n))
            } else if c + 21 + n > s.len() {
                Err(CodecFault::Corrupt("payload truncated"@))
            } else {
                Ok((OpFields { key, value: Some(s.subrange(c + 21, c + 21 + n)) }, c + 21 + n))
            }
        } else {
            Err(CodecFault::Corrupt("unknown op"@))
        }
    }
}

/// `n` writes from `c` on, and where they end.
#[verifier::opaque]
pub open spec fn parse_ops(s: Seq<u8>, c: int, n: int) -> std::result::Result<
    (Seq<OpFields>, int),
    CodecFault,
>
    decreases n,
{
    if n <= 0 {
        Ok((seq![], c))
    } else {
        match parse_op(s, c) {
            Ok((o, next)) => after_ops(seq![o], parse_ops(s, next, n - 1)),
            Err(f) => Err(f),
        }
    }
}

pub open spec fn after_ops(
    ops: Seq<OpFields>,
    p: std::result::Result<(Seq<OpFields>, int), CodecFault>,
) -> std::result::Result<(Seq<OpFields>, int), CodecFault> {
    match p {
        Ok((more, end)) => Ok((ops + more, end)),
        Err(f) => Err(f),
    }
}

/// What a payload says.
pub open spec fn parse_payload(s: Seq<u8>) -> std::result::Result<
    (u64, Seq<OpFields>),
    CodecFault,
> {
    if s.len() < 12 {
        Err(CodecFault::Corrupt("payload too short"@))
    } else {
        match parse_ops(s, 12, u32_at(s, 8)) {
            Ok((ops, end)) => if end == s.len() {
                Ok((u64_at(s, 0) as u64, ops))
            } else {
                Err(CodecFault::Corrupt("payload length mismatch"@))
            },
            Err(f) => Err(f),
        }
    }
}

/// Reads a payload.
pub fn decode_payload(payload: &[u8]) -> (r: Result<(u64, Vec<WalOp>)>)
    ensures
        match parse_payload(payload@) {
            Ok((ts, ops)) => r matches Ok(v) && v.0 == ts && ops_view(v.1@) == ops,
            Err(f) => r matches Err(e) && is_fault(f, e),
        },
{
    let ghost s = payload@;
    let len: usize = payload.len();
    if len < 12 {
        return Err(corrupt("payload too short"));
    }
    let commit_ts: u64 = get_u64(payload, 0);
    let n: u32 = get_u32(payload, 8);
    let mut ops: Vec<WalOp> = Vec::new();
    let mut c: usize = 12;
    let mut i: u32 = 0;
    let ghost whole = parse_ops(s, 12, n as int);
    assert(after_ops(ops_view(ops@), whole) == whole) by {
        if let Ok((more, end)) = whole {
            assert(ops_view(ops@) + more =~= more);
        }
    }
    while i < n
        invariant
            s == payload@,
            len == s.len(),
            12 <= c <= len,
            n == u32_at(s, 8),
            i <= n,
            whole == parse_ops(s, 12, n as int),
            whole == after_ops(ops_view(ops@), parse_ops(s, c as int, n - i)),
        decreases n - i,
    {
        reveal_with_fuel(parse_ops, 1);
        if len - c < 17 {
            return Err(corrupt("payload truncated"));
        }
        let key = key_array(payload, c);
        let op: u8 = payload[c + 16];
        let ghost before = ops_view(ops@);
        let ghost at = c;
        let ghost fields;
        if op == 0 {
            proof {
                fields = OpFields { key: key@, value: None };
            }
            ops.push((key, None));
            c = c + 17;
        } else if op == 1 {
            if len - c < 21 {
                return Err(corrupt("payload truncated"));
            }
            let vlen: usize = get_u32(payload, c + 17) as usize;
            if vlen > VALUE_SIZE {
                return Err(TxnError::InvalidValueSize(vlen, VALUE_SIZE));
            }
            if len - c - 21 < vlen {
                return Err(corrupt("payload truncated"));
            }
            let value = copy_range(payload, c + 21, c + 21 + vlen);
            proof {
                fields = OpFields { key: key@, value: Some(value@) };
            }
            ops.push((key, Some(value)));
            c = c + 21 + vlen;
        } else {
            return Err(corrupt("unknown op"));
        }
        proof {
            assert(parse_op(s, at as int) == Ok::<(OpFields, int), CodecFault>(
                (fields, c as int),
            ));
            assert(ops_view(ops@) =~= before + seq![fields]);
            if let Ok((more, end)) = parse_ops(s, c as int, n - i - 1) {
                assert(before + (seq![fields] + more) =~= (before + seq![fields]) + more);
            }
        }
        i += 1;
    }
    reveal_with_fuel(parse_ops, 1);
    assert(ops_view(ops@) + Seq::<OpFields>::empty() =~= ops_view(ops@));
    if c != len {
        return Err(corrupt("payload length mismatch"));
    }
    Ok((commit_ts, ops))
}

proof fn lemma_op_at(s: Seq<u8>, c: int, o: OpFields)
    requires
        o.key.len() == KEY_SIZE,
        value_ok(o.value),
        0 <= c,
        c + op_bytes(o).len() <= s.len(),
        s.subrange(c, c + op_bytes(o).len()) == op_bytes(o),
    ensures
        parse_op(s, c) == Ok::<(OpFields, int), CodecFault>((o, c + op_bytes(o).len())),
{
    let b = op_bytes(o);
    assert forall|i: int| 0 <= i < b.len() implies s[c + i] == #[trigger] b[i] by {
        assert(s.subrange(c, c + b.len())[i] == s[c + i]);
    }
    assert forall|i: int| 0 <= i < 16 implies s[c + i] == #[trigger] o.key[i] by {
        assert(b[i] == o.key[i]);
    }
    assert(s.subrange(c, c + 16) =~= o.key);
    match o.value {
        Some(v) => {
            assert(b[16] == 1);
            let n = le4(v.len() as int);
            assert forall|i: int| 0 <= i < 4 implies s[c + 17 + i] == #[trigger] n[i] by {
                assert(b[17 + i] == n[i]);
            }
            assert(s.subrange(c + 17, c + 21) =~= n);
            lemma_field4(s, c + 17, v.len() as int);
            assert forall|i: int| 0 <= i < v.len() implies s[c + 21 + i] == #[trigger] v[i] by {
                assert(b[21 + i] == v[i]);
            }
            assert(s.subrange(c + 21, c + 21 + v.len()) =~= v);
        },
        None => {
            assert(b[16] == 0);
        },
    }
}

pub open spec fn keys_sized(ops: Seq<OpFields>) -> bool {
    forall|i: int| 0 <= i < ops.len() ==> (#[trigger] ops[i]).key.len() == KEY_SIZE
}

proof fn lemma_ops_prefix(ops: Seq<OpFields>, i: int, n: int)
    requires
        0 <= i <= n <= ops.len(),
    ensures
        ops_bytes(ops, i).len() <= ops_bytes(ops, n).len(),
        ops_bytes(ops, n).subrange(0, ops_bytes(ops, i).len() as int) == ops_bytes(ops, i),
    decreases n,
{
    if i < n {
        lemma_ops_prefix(ops, i, n - 1);
        assert(ops_bytes(ops, n).subrange(0, ops_bytes(ops, i).len() as int) =~= ops_bytes(
            ops,
            n - 1,
        ).subrange(0, ops_bytes(ops, i).len() as int));
    } else {
        assert(ops_bytes(ops, n).subrange(0, ops_bytes(ops, i).len() as int) =~= ops_bytes(ops, i));
    }
}

proof fn lemma_parse_ops(s: Seq<u8>, ops: Seq<OpFields>, i: int)
    requires
        0 <= i <= ops.len(),
        ops_ok(ops),
        keys_sized(ops),
        12 + ops_bytes(ops, ops.len() as int).len() == s.len(),
        s.subrange(12, s.len() as int) == ops_bytes(ops, ops.len() as int),
    ensures
        parse_ops(s, 12int + ops_bytes(ops, i).len(), ops.len() - i) == Ok::<
            (Seq<OpFields>, int),
            CodecFault,
        >((ops.skip(i), s.len() as int)),
    decreases ops.len() - i,
{
    reveal_with_fuel(parse_ops, 1);
    let n = ops.len() as int;
    if i < n {
        let c = 12int + ops_bytes(ops, i).len();
        let o = ops[i];
        let b = op_bytes(o);
        lemma_ops_prefix(ops, i + 1, n);
        let whole = s.subrange(12, s.len() as int);
        let front = whole.subrange(0, ops_bytes(ops, i + 1).len() as int);
        assert(front == ops_bytes(ops, i) + b);
        assert(s.subrange(c, c + b.len()) =~= front.subrange(c - 12, c - 12 + b.len()));
        assert(front.subrange(c - 12, c - 12 + b.len()) =~= b);
        lemma_op_at(s, c, o);
        lemma_parse_ops(s, ops, i + 1);
        assert(seq![o] + ops.skip(i + 1) =~= ops.skip(i));
    } else {
        assert(ops.skip(i) =~= seq![]);
    }
}

/// A payload that was encoded is decoded again.
pub proof fn law_payload_round_trip(ts: u64, ops: Seq<OpFields>)
    requires
        ops.len() <= u32::MAX,
        ops_ok(ops),
        keys_sized(ops),
    ensures
        parse_payload(payload_bytes(ts, ops)) == Ok::<(u64, Seq<OpFields>), CodecFault>((ts, ops)),
{
    let s = payload_bytes(ts, ops);
    let h = payload_head(ts, ops.len() as int);
    assert(h.len() == 12 && h.subrange(0, 8) =~= le8(ts as int) && h.subrange(8, 12) =~= le4(
        ops.len() as int,
    )) by {
        reveal(payload_head);
    }
    assert(s.subrange(0, 8) =~= h.subrange(0, 8));
    assert(s.subrange(8, 12) =~= h.subrange(8, 12));
    lemma_field8(s, 0, ts as int);
    lemma_field4(s, 8, ops.len() as int);
    assert(s.subrange(12, s.len() as int) =~= ops_bytes(ops, ops.len() as int));
    lemma_parse_ops(s, ops, 0);
    assert(ops.skip(0) =~= ops);
}

/// The CRC-32 of bytes, as `crc32fast::hash` computes it.
pub uninterp spec fn crc32_of(bytes: Seq<u8>) -> u32;

/// `crc32fast::hash`: the CRC-32 of the bytes.
#[verifier::external_body]
pub(crate) fn crc32(bytes: &[u8]) -> (r: u32)
    ensures
        r == crc32_of(bytes@),
{
    crc32fast::hash(bytes)
}

/// Bytes of a log record before its payload.
#[verifier::opaque]
pub open spec fn record_head(len: int, crc: u32) -> Seq<u8> {
    le4(WAL_MAGIC as int) + le4(len) + le4(crc as int)
}

/// A log record around a payload.
pub open spec fn record_bytes(payload: Seq<u8>, crc: u32) -> Seq<u8> {
    record_head((payload.len() as u32) as int, crc) + payload
}

/// The log record around a payload with the given checksum. The length field
/// has 32 bits.
pub fn frame_record(payload: &[u8], crc: u32) -> (r: Vec<u8>)
    ensures
        r@ == record_bytes(payload@, crc),
{
    let mut record: Vec<u8> = Vec::new();
    push_u32(&mut record, WAL_MAGIC);
    push_u32(
        &mut record,
        #[verifier::truncate]
        (payload.len() as u32),
    );
    push_u32(&mut record, crc);
    assert(record@ =~= record_head((payload@.len() as u32) as int, crc)) by {
        reveal(record_head);
    }
    push_bytes(&mut record, payload);
    record
}

/// The log record around a payload.
pub fn wal_record(payload: &[u8]) -> (r: Vec<u8>)
    ensures
        r@ == record_bytes(payload@, crc32_of(payload@)),
{
    let crc: u32 = crc32(payload);
    frame_record(payload, crc)
}

/// Where the payload of the record at `c` begins and ends, and its checksum;
/// nothing where no whole record stands there.
pub open spec fn record_span(s: Seq<u8>, c: int) -> Option<(int, int, u32)> {
    if c + WAL_HEADER_LEN > s.len() || u32_at(s, c) != WAL_MAGIC || c + WAL_HEADER_LEN + u32_at(
        s,
        c + 4,
    ) > s.len() {
        None
    } else {
        Some(
            (
                c + WAL_HEADER_LEN,
                c + WAL_HEADER_LEN + u32_at(s, c + 4),
                u32_at(s, c + 8) as u32,
            ),
        )
    }
}

/// Finds the payload of the record at `c`.
pub fn find_record(data: &[u8], c: usize) -> (r: Option<(usize, usize, u32)>)
    requires
        c <= data@.len(),
    ensures
        match r {
            Some((a, b, crc)) => record_span(data@, c as int) == Some((a as int, b as int, crc))
                && c < a <= b <= data@.len(),
            None => record_span(data@, c as int) is None,
        },
{
    let len: usize = data.len();
    if len - c < WAL_HEADER_LEN {
        return None;
    }
    if get_u32(data, c) != WAL_MAGIC {
        return None;
    }
    let n: usize = get_u32(data, c + 4) as usize;
    let crc: u32 = get_u32(data, c + 8);
    if len - c - WAL_HEADER_LEN < n {
        return None;
    }
    Some((c + WAL_HEADER_LEN, c + WAL_HEADER_LEN + n, crc))
}

/// A payload is taken when its checksum is the stored one and it can be read.
pub open spec fn accepted(payload: Seq<u8>, stored: u32, actual: u32) -> Option<
    (u64, Seq<OpFields>),
> {
    if stored != actual {
        None
    } else {
        match parse_payload(payload) {
            Ok(v) => Some(v),
            Err(_) => None,
        }
    }
}

/// Takes a payload whose checksum is `actual`.
pub fn accept_payload(payload: &[u8], stored: u32, actual: u32) -> (r: Option<(u64, Vec<WalOp>)>)
    ensures
        match r {
            Some((ts, ops)) => accepted(payload@, stored, actual) == Some((ts, ops_view(ops@))),
            None => accepted(payload@, stored, actual) is None,
        },
{
    if stored != actual {
        return None;
    }
    match decode_payload(payload) {
        Ok(v) => Some(v),
        Err(_) => None,
    }
}

/// What the record at `c` says and where the next one begins; nothing where the
/// log stops being readable.
pub open spec fn record_at(s: Seq<u8>, c: int) -> Option<((u64, Seq<OpFields>), int)> {
    match record_span(s, c) {
        None => None,
        Some((a, b, crc)) => match accepted(s.subrange(a, b), crc, crc32_of(s.subrange(a, b))) {
            None => None,
            Some(v) => Some((v, b)),
        },
    }
}

/// The commits that the log holds from `c` on, and where it stops being readable.
#[verifier::opaque]
pub open spec fn wal_commits(s: Seq<u8>, c: int) -> (Seq<(u64, Seq<OpFields>)>, int)
    decreases s.len() - c,
{
    match record_at(s, c) {
        None => (seq![], c),
        Some((v, next)) => if c < next <= s.len() {
            let rest = wal_commits(s, next);
            (seq![v] + rest.0, rest.1)
        } else {
            (seq![], c)
        },
    }
}

/// The history of a row after the first `n` writes of a commit.
pub open spec fn history_after_ops(
    h: Seq<VersionFields>,
    k: Seq<u8>,
    ts: u64,
    ops: Seq<OpFields>,
    n: int,
) -> Seq<VersionFields>
    decreases n,
{
    if n <= 0 {
        h
    } else {
        let prev = history_after_ops(h, k, ts, ops, n - 1);
        if ops[n - 1].key == k {
            prev.push(VersionFields { commit_ts: ts, value: ops[n - 1].value })
        } else {
            prev
        }
    }
}

/// The history of a row after the first `n` commits of a log; those that the
/// snapshot at `base_ts` covers are left out.
pub open spec fn history_after_commits(
    h: Seq<VersionFields>,
    k: Seq<u8>,
    base_ts: u64,
    cs: Seq<(u64, Seq<OpFields>)>,
    n: int,
) -> Seq<VersionFields>
    decreases n,
{
    if n <= 0 {
        h
    } else {
        let prev = history_after_commits(h, k, base_ts, cs, n - 1);
        if cs[n - 1].0 > base_ts {
            history_after_ops(prev, k, cs[n - 1].0, cs[n - 1].1, cs[n - 1].1.len() as int)
        } else {
            prev
        }
    }
}

/// The newest timestamp among the first `n` commits and the base.
pub open spec fn newest_ts(base_ts: u64, cs: Seq<(u64, Seq<OpFields>)>, n: int) -> u64
    decreases n,
{
    if n <= 0 {
        base_ts
    } else {
        let prev = newest_ts(base_ts, cs, n - 1);
        if cs[n - 1].0 > prev {
            cs[n - 1].0
        } else {
            prev
        }
    }
}

impl TxnStore {
    /// Takes the writes of a commit into the store.
    pub fn apply_ops(&mut self, commit_ts: u64, ops: &Vec<WalOp>)
        requires
            old(self).wf(),
        ensures
            final(self).wf(),
            forall|k: Seq<u8>| #[trigger]
                final(self).history(k) == history_after_ops(
                    old(self).history(k),
                    k,
                    commit_ts,
                    ops_view(ops@),
                    ops@.len() as int,
                ),
    {
        let ghost all = ops_view(ops@);
        let n: usize = ops.len();
        let mut i: usize = 0;
        while i < n
            invariant
                n == ops@.len(),
                all == ops_view(ops@),
                i <= n,
                self.wf(),
                forall|k: Seq<u8>| #[trigger]
                    self.history(k) == history_after_ops(
                        old(self).history(k),
                        k,
                        commit_ts,
                        all,
                        i as int,
                    ),
            decreases n - i,
        {
            let ghost before = *self;
            let key = ops[i].0;
            let value = copy_value(&ops[i].1);
            assert(all[i as int] == (OpFields { key: key@, value: value_fields(value) }));
            self.push_version(key, Version { commit_ts, value });
            assert forall|k: Seq<u8>| #[trigger] self.history(k) == history_after_ops(
                old(self).history(k),
                k,
                commit_ts,
                all,
                i + 1,
            ) by {
                assert(before.history(k) == history_after_ops(
                    old(self).history(k),
                    k,
                    commit_ts,
                    all,
                    i as int,
                ));
            }
            i += 1;
        }
    }
}

/// A copy of a value.
pub(crate) fn copy_value(v: &Option<Value>) -> (r: Option<Value>)
    ensures
        value_fields(r) == value_fields(*v),
{
    match v {
        Some(b) => Some(copy_bytes(b.as_slice())),
        None => None,
    }
}

/// Takes a log into a store that stands at `base_ts`. Returns the newest
/// timestamp and the length of the part of the log that can be read.
pub fn replay_wal_with_base(data: &[u8], store: &mut TxnStore, base_ts: u64) -> (r: (u64, u64))
    requires
        old(store).wf(),
    ensures
        ({
            let (cs, end) = wal_commits(data@, 0);
            &&& final(store).wf()
            &&& forall|k: Seq<u8>| #[trigger]
                final(store).history(k) == history_after_commits(
                    old(store).history(k),
                    k,
                    base_ts,
                    cs,
                    cs.len() as int,
                )
            &&& r.0 == newest_ts(base_ts, cs, cs.len() as int)
            &&& r.1 == end
        }),
{
    let ghost s = data@;
    let ghost all = wal_commits(s, 0);
    let ghost mut done: Seq<(u64, Seq<OpFields>)> = seq![];
    let len: usize = data.len();
    let mut max_ts: u64 = base_ts;
    let mut c: usize = 0;
    assert(seq![] + all.0 =~= all.0);
    loop
        invariant
            s == data@,
            len == s.len(),
            c <= len,
            all == wal_commits(s, 0),
            all.0 == done + wal_commits(s, c as int).0,
            all.1 == wal_commits(s, c as int).1,
            store.wf(),
            max_ts == newest_ts(base_ts, done, done.len() as int),
            max_ts >= base_ts,
            forall|k: Seq<u8>| #[trigger]
                store.history(k) == history_after_commits(
                    old(store).history(k),
                    k,
                    base_ts,
                    done,
                    done.len() as int,
                ),
        ensures
            store.wf(),
            all == (done, c as int),
            max_ts == newest_ts(base_ts, done, done.len() as int),
            forall|k: Seq<u8>| #[trigger]
                store.history(k) == history_after_commits(
                    old(store).history(k),
                    k,
                    base_ts,
                    done,
                    done.len() as int,
                ),
        decreases len - c,
    {
        reveal_with_fuel(wal_commits, 1);
        let (a, b, crc) = match find_record(data, c) {
            Some(x) => x,
            None => {
                assert(done + Seq::<(u64, Seq<OpFields>)>::empty() =~= done);
                break;
            },
        };
        let payload = vstd::slice::slice_subrange(data, a, b);
        let actual: u32 = crc32(payload);
        let (ts, ops) = match accept_payload(payload, crc, actual) {
            Some(x) => x,
            None => {
                assert(done + Seq::<(u64, Seq<OpFields>)>::empty() =~= done);
                break;
            },
        };
        let ghost v = (ts, ops_view(ops@));
        let ghost before = *store;
        let ghost prev = done;
        proof {
            assert(record_at(s, c as int) == Some((v, b as int)));
            done = prev.push(v);
            assert(all.0 =~= done + wal_commits(s, b as int).0);
            assert(done.last() == v);
            lemma_commits_prefix(prev, v, base_ts);
        }
        if ts > base_ts {
            store.apply_ops(ts, &ops);
            if ts > max_ts {
                max_ts = ts;
            }
        }
        proof {
            assert forall|k: Seq<u8>| #[trigger] store.history(k) == history_after_commits(
                old(store).history(k),
                k,
                base_ts,
                done,
                done.len() as int,
            ) by {
                let h = before.history(k);
                assert(h == history_after_commits(
                    old(store).history(k),
                    k,
                    base_ts,
                    prev,
                    prev.len() as int,
                ));
                lemma_history_prefix(old(store).history(k), k, base_ts, prev, v, prev.len() as int);
            }
        }
        c = b;
    }
    (max_ts, c as u64)
}

proof fn lemma_newest_prefix(
    base_ts: u64,
    cs: Seq<(u64, Seq<OpFields>)>,
    v: (u64, Seq<OpFields>),
    n: int,
)
    requires
        0 <= n <= cs.len(),
    ensures
        newest_ts(base_ts, cs.push(v), n) == newest_ts(base_ts, cs, n),
    decreases n,
{
    if n > 0 {
        lemma_newest_prefix(base_ts, cs, v, n - 1);
        assert(cs.push(v)[n - 1] == cs[n - 1]);
    }
}

proof fn lemma_commits_prefix(
    cs: Seq<(u64, Seq<OpFields>)>,
    v: (u64, Seq<OpFields>),
    base_ts: u64,
)
    ensures
        newest_ts(base_ts, cs.push(v), cs.len() as int + 1) == (if v.0 > newest_ts(
            base_ts,
            cs,
            cs.len() as int,
        ) {
            v.0
        } else {
            newest_ts(base_ts, cs, cs.len() as int)
        }),
{
    lemma_newest_prefix(base_ts, cs, v, cs.len() as int);
    assert(cs.push(v)[cs.len() as int] == v);
}

pub proof fn lemma_history_prefix(
    h: Seq<VersionFields>,
    k: Seq<u8>,
    base_ts: u64,
    cs: Seq<(u64, Seq<OpFields>)>,
    v: (u64, Seq<OpFields>),
    n: int,
)
    requires
        0 <= n <= cs.len(),
    ensures
        history_after_commits(h, k, base_ts, cs.push(v), n) == history_after_commits(
            h,
            k,
            base_ts,
            cs,
            n,
        ),
    decreases n,
{
    if n > 0 {
        lemma_history_prefix(h, k, base_ts, cs, v, n - 1);
        assert(cs.push(v)[n - 1] == cs[n - 1]);
    }
}

proof fn lemma_record_reads(s: Seq<u8>, c: int, ts: u64, ops: Seq<OpFields>)
    requires
        ops.len() <= u32::MAX,
        ops_ok(ops),
        keys_sized(ops),
        payload_bytes(ts, ops).len() <= u32::MAX,
        0 <= c <= s.len(),
        s.subrange(c, s.len() as int) == record_bytes(
            payload_bytes(ts, ops),
            crc32_of(payload_bytes(ts, ops)),
        ),
    ensures
        record_at(s, c) == Some(((ts, ops), s.len() as int)),
{
    let p = payload_bytes(ts, ops);
    let crc = crc32_of(p);
    let h = record_head(p.len() as int, crc);
    let b = s.subrange(c, s.len() as int);
    assert(h.len() == 12 && h.subrange(0, 4) =~= le4(WAL_MAGIC as int) && h.subrange(4, 8) =~= le4(
        p.len() as int,
    ) && h.subrange(8, 12) =~= le4(crc as int)) by {
        reveal(record_head);
    }
    assert(b == h + p);
    assert(b.len() == s.len() - c);
    assert(s.subrange(c, c + 4) =~= h.subrange(0, 4)) by {
        assert(s.subrange(c, c + 4) =~= b.subrange(0, 4));
    }
    assert(s.subrange(c + 4, c + 8) =~= h.subrange(4, 8)) by {
        assert(s.subrange(c + 4, c + 8) =~= b.subrange(4, 8));
    }
    assert(s.subrange(c + 8, c + 12) =~= h.subrange(8, 12)) by {
        assert(s.subrange(c + 8, c + 12) =~= b.subrange(8, 12));
    }
    lemma_field4(s, c, WAL_MAGIC as int);
    lemma_field4(s, c + 4, p.len() as int);
    lemma_field4(s, c + 8, crc as int);
    assert(s.subrange(c + 12, s.len() as int) =~= p) by {
        assert(s.subrange(c + 12, s.len() as int) =~= b.subrange(12, b.len() as int));
        assert(b.subrange(12, b.len() as int) =~= p);
    }
    law_payload_round_trip(ts, ops);
}

/// A record reads the same with more bytes behind it.
proof fn lemma_record_in_front(s: Seq<u8>, e: Seq<u8>, c: int)
    requires
        0 <= c,
        record_at(s, c) is Some,
        s.len() <= e.len(),
        e.subrange(0, s.len() as int) == s,
    ensures
        record_at(e, c) == record_at(s, c),
{
    let t = e.subrange(0, s.len() as int);
    assert forall|i: int| 0 <= i < s.len() implies #[trigger] e[i] == s[i] by {
        assert(t[i] == e[i]);
    }
    let (a, b, crc) = record_span(s, c)->0;
    assert(record_span(e, c) == record_span(s, c));
    assert(e.subrange(a, b) =~= s.subrange(a, b));
}

/// The step of `wal_commits`.
proof fn lemma_commits_step(s: Seq<u8>, c: int)
    requires
        0 <= c <= s.len(),
    ensures
        record_at(s, c) matches Some((v, next)) ==> c < next <= s.len() && wal_commits(s, c) == (
            seq![v] + wal_commits(s, next).0,
            wal_commits(s, next).1,
        ),
        record_at(s, c) is None ==> wal_commits(s, c) == (
            Seq::<(u64, Seq<OpFields>)>::empty(),
            c,
        ),
        c == s.len() ==> record_at(s, c) is None,
{
    reveal_with_fuel(wal_commits, 1);
}

proof fn lemma_log_extended(s: Seq<u8>, rec: Seq<u8>, c: int, ts: u64, ops: Seq<OpFields>)
    requires
        ops.len() <= u32::MAX,
        ops_ok(ops),
        keys_sized(ops),
        payload_bytes(ts, ops).len() <= u32::MAX,
        0 <= c <= s.len(),
        wal_commits(s, c).1 == s.len(),
        rec == record_bytes(payload_bytes(ts, ops), crc32_of(payload_bytes(ts, ops))),
    ensures
        wal_commits(s + rec, c) == (wal_commits(s, c).0.push((ts, ops)), (s + rec).len() as int),
    decreases s.len() - c,
{
    let e = s + rec;
    lemma_commits_step(s, c);
    lemma_commits_step(e, c);
    if c == s.len() {
        assert(e.subrange(c, e.len() as int) =~= rec);
        lemma_record_reads(e, c, ts, ops);
        lemma_commits_step(e, e.len() as int);
        assert(wal_commits(e, c).0 =~= wal_commits(s, c).0.push((ts, ops)));
    } else {
        let (v, next) = record_at(s, c)->0;
        assert(e.subrange(0, s.len() as int) =~= s);
        lemma_record_in_front(s, e, c);
        lemma_log_extended(s, rec, next, ts, ops);
        assert(wal_commits(e, c).0 =~= wal_commits(s, c).0.push((ts, ops)));
    }
}

/// A commit appended to a log that can be read to its end is read back behind
/// the commits that were there.
pub proof fn law_log_append(s: Seq<u8>, ts: u64, ops: Seq<OpFields>)
    requires
        ops.len() <= u32::MAX,
        ops_ok(ops),
        keys_sized(ops),
        payload_bytes(ts, ops).len() <= u32::MAX,
        wal_commits(s, 0).1 == s.len(),
    ensures
        ({
            let e = s + record_bytes(payload_bytes(ts, ops), crc32_of(payload_bytes(ts, ops)));
            wal_commits(e, 0) == (wal_commits(s, 0).0.push((ts, ops)), e.len() as int)
        }),
{
    let rec = record_bytes(payload_bytes(ts, ops), crc32_of(payload_bytes(ts, ops)));
    lemma_log_extended(s, rec, 0, ts, ops);
}

/// An empty log can be read to its end.
pub proof fn law_empty_log()
    ensures
        wal_commits(seq![], 0) == (Seq::<(u64, Seq<OpFields>)>::empty(), 0int),
{
    reveal_with_fuel(wal_commits, 1);
}

/// The newest values among the first `n` rows of a store; deleted rows are left
/// out.
pub open spec fn newest_values(es: Seq<(Key, Vec<Version>)>, n: int) -> Seq<OpFields>
    decreases n,
{
    if n <= 0 {
        seq![]
    } else {
        let prev = newest_values(es, n - 1);
        let vs = versions_view(es[n - 1].1@);
        if vs.len() > 0 && vs.last().value is Some {
            prev.push(OpFields { key: es[n - 1].0@, value: vs.last().value })
        } else {
            prev
        }
    }
}

pub open spec fn snapshot_entry(o: OpFields) -> Seq<u8> {
    o.key + le4(o.value->0.len() as int) + o.value->0
}

pub open spec fn snapshot_entries(rows: Seq<OpFields>, n: int) -> Seq<u8>
    decreases n,
{
    if n <= 0 {
        seq![]
    } else {
        snapshot_entries(rows, n - 1) + snapshot_entry(rows[n - 1])
    }
}

#[verifier::opaque]
pub open spec fn snapshot_head(ts: u64, n: int) -> Seq<u8> {
    le4(SNAPSHOT_MAGIC as int) + le4(SNAPSHOT_VERSION as int) + le8(ts as int) + le4(n)
}

/// The bytes of a snapshot.
pub open spec fn snapshot_bytes(ts: u64, rows: Seq<OpFields>) -> Seq<u8> {
    snapshot_head(ts, rows.len() as int) + snapshot_entries(rows, rows.len() as int)
}

/// The newest values of the rows of a store.
fn collect_newest(store: &TxnStore) -> (r: Vec<WalOp>)
    ensures
        ops_view(r@) == newest_values(store.rows.entries@, store.rows.entries@.len() as int),
        forall|i: int| 0 <= i < r@.len() ==> (#[trigger] r@[i]).1 is Some,
{
    let mut out: Vec<WalOp> = Vec::new();
    let n: usize = store.rows.entries.len();
    let mut i: usize = 0;
    assert(ops_view(out@) =~= seq![]);
    while i < n
        invariant
            n == store.rows.entries@.len(),
            i <= n,
            ops_view(out@) == newest_values(store.rows.entries@, i as int),
            forall|j: int| 0 <= j < out@.len() ==> (#[trigger] out@[j]).1 is Some,
        decreases n - i,
    {
        let versions = &store.rows.entries[i].1;
        let len: usize = versions.len();
        let ghost before = ops_view(out@);
        if len > 0 {
            let value = copy_value(&versions[len - 1].value);
            if value.is_some() {
                out.push((store.rows.entries[i].0, value));
                assert(ops_view(out@) =~= before.push(
                    OpFields {
                        key: store.rows.entries@[i as int].0@,
                        value: value_fields(value),
                    },
                ));
            }
        }
        i += 1;
    }
    out
}

/// The snapshot of a store.
pub fn encode_snapshot(commit_ts: u64, store: &TxnStore) -> (r: Result<Vec<u8>>)
    ensures
        ({
            let rows = newest_values(store.rows.entries@, store.rows.entries@.len() as int);
            if rows.len() > u32::MAX {
                r matches Err(e) && is_corrupt(e, "too many snapshot entries"@)
            } else if ops_ok(rows) {
                r matches Ok(b) && b@ == snapshot_bytes(commit_ts, rows)
            } else {
                r matches Err(TxnError::InvalidValueSize(a, b)) && b == VALUE_SIZE && exists|i: int|
                    #[trigger] first_long(rows, i) && a == rows[i].value->0.len()
            }
        }),
{
    let entries = collect_newest(store);
    let ghost rows = ops_view(entries@);
    let n: usize = entries.len();
    if n as u64 > 0xFFFF_FFFF {
        return Err(corrupt("too many snapshot entries"));
    }
    let mut buf: Vec<u8> = Vec::new();
    push_u32(&mut buf, SNAPSHOT_MAGIC);
    push_u32(&mut buf, SNAPSHOT_VERSION);
    push_u64(&mut buf, commit_ts);
    push_u32(&mut buf, n as u32);
    assert(buf@ =~= snapshot_head(commit_ts, n as int)) by {
        reveal(snapshot_head);
    }
    assert(buf@ =~= snapshot_head(commit_ts, n as int) + snapshot_entries(rows, 0));
    let mut i: usize = 0;
    while i < n
        invariant
            n == entries@.len(),
            rows == ops_view(entries@),
            n <= u32::MAX,
            i <= n,
            forall|j: int| 0 <= j < entries@.len() ==> (#[trigger] entries@[j]).1 is Some,
            buf@ == snapshot_head(commit_ts, n as int) + snapshot_entries(rows, i as int),
            forall|j: int| 0 <= j < i ==> value_ok((#[trigger] rows[j]).value),
            rows == newest_values(store.rows.entries@, store.rows.entries@.len() as int),
        decreases n - i,
    {
        let ghost before = buf@;
        let ghost row = rows[i as int];
        assert(entries@[i as int].1 is Some);
        if let Some(v) = &entries[i].1 {
            let len: usize = v.len();
            if len > VALUE_SIZE {
                assert(first_long(rows, i as int));
                return Err(TxnError::InvalidValueSize(len, VALUE_SIZE));
            }
            push_bytes(&mut buf, entries[i].0.as_slice());
            push_u32(&mut buf, len as u32);
            push_bytes(&mut buf, v.as_slice());
        }
        assert(buf@ =~= before + snapshot_entry(row));
        assert(buf@ =~= snapshot_head(commit_ts, n as int) + snapshot_entries(rows, i + 1));
        i += 1;
    }
    Ok(buf)
}

/// The row at `c` of a snapshot and where the next one begins.
pub open spec fn parse_row(s: Seq<u8>, c: int) -> std::result::Result<(OpFields, int), CodecFault> {
    let n = u32_at(s, c + 16);
    if c + 20 > s.len() {
        Err(CodecFault::Corrupt("snapshot truncated"@))
    } else if n > VALUE_SIZE {
        Err(CodecFault::LongValue(n))
    } else if c + 20 + n > s.len() {
        Err(CodecFault::Corrupt("snapshot truncated"@))
    } else {
        Ok(
            (
                OpFields {
                    key: s.subrange(c, c + 16),
                    value: Some(s.subrange(c + 20, c + 20 + n)),
                },
                c + 20 + n,
            ),
        )
    }
}

/// `n` rows from `c` on, and where they end.
#[verifier::opaque]
pub open spec fn parse_rows(s: Seq<u8>, c: int, n: int) -> std::result::Result<
    (Seq<OpFields>, int),
    CodecFault,
>
    decreases n,
{
    if n <= 0 {
        Ok((seq![], c))
    } else {
        match parse_row(s, c) {
            Ok((o, next)) => after_ops(seq![o], parse_rows(s, next, n - 1)),
            Err(f) => Err(f),
        }
    }
}

/// What a snapshot says: its timestamp and its rows.
pub open spec fn parse_snapshot(s: Seq<u8>) -> std::result::Result<
    (u64, Seq<OpFields>),
    CodecFault,
> {
    if s.len() < 20 {
        Err(CodecFault::Corrupt("snapshot too short"@))
    } else if u32_at(s, 0) != SNAPSHOT_MAGIC {
        Err(CodecFault::Corrupt("invalid snapshot magic"@))
    } else if u32_at(s, 4) != SNAPSHOT_VERSION {
        Err(CodecFault::Corrupt("unsupported snapshot version"@))
    } else {
        match parse_rows(s, 20, u32_at(s, 16)) {
            Ok((rows, end)) => if end == s.len() {
                Ok((u64_at(s, 8) as u64, rows))
            } else {
                Err(CodecFault::Corrupt("snapshot length mismatch"@))
            },
            Err(f) => Err(f),
        }
    }
}

/// Reads a snapshot: the store, and the timestamp at which it stands.
pub fn decode_snapshot(data: &[u8]) -> (r: Result<(TxnStore, u64)>)
    ensures
        match parse_snapshot(data@) {
            Ok((ts, rows)) => r matches Ok(v) && v.1 == ts && v.0.wf() && forall|k: Seq<u8>|
                #[trigger] v.0.history(k) == history_after_ops(
                    seq![],
                    k,
                    ts,
                    rows,
                    rows.len() as int,
                ),
            Err(f) => r matches Err(e) && is_fault(f, e),
        },
{
    let ghost s = data@;
    let len: usize = data.len();
    if len < 20 {
        return Err(corrupt("snapshot too short"));
    }
    if get_u32(data, 0) != SNAPSHOT_MAGIC {
        return Err(corrupt("invalid snapshot magic"));
    }
    if get_u32(data, 4) != SNAPSHOT_VERSION {
        return Err(corrupt("unsupported snapshot version"));
    }
    let commit_ts: u64 = get_u64(data, 8);
    let n: u32 = get_u32(data, 16);
    let mut rows: Vec<WalOp> = Vec::new();
    let mut c: usize = 20;
    let mut i: u32 = 0;
    let ghost whole = parse_rows(s, 20, n as int);
    assert(after_ops(ops_view(rows@), whole) == whole) by {
        if let Ok((more, end)) = whole {
            assert(ops_view(rows@) + more =~= more);
        }
    }
    while i < n
        invariant
            s == data@,
            len == s.len(),
            u32_at(s, 0) == SNAPSHOT_MAGIC,
            u32_at(s, 4) == SNAPSHOT_VERSION,
            20 <= c <= len,
            n == u32_at(s, 16),
            i <= n,
            whole == parse_rows(s, 20, n as int),
            whole == after_ops(ops_view(rows@), parse_rows(s, c as int, n - i)),
        decreases n - i,
    {
        reveal_with_fuel(parse_rows, 1);
        if len - c < 20 {
            return Err(corrupt("snapshot truncated"));
        }
        let key = key_array(data, c);
        let vlen: usize = get_u32(data, c + 16) as usize;
        if vlen > VALUE_SIZE {
            return Err(TxnError::InvalidValueSize(vlen, VALUE_SIZE));
        }
        if len - c - 20 < vlen {
            return Err(corrupt("snapshot truncated"));
        }
        let value = copy_range(data, c + 20, c + 20 + vlen);
        let ghost before = ops_view(rows@);
        let ghost fields = OpFields { key: key@, value: Some(value@) };
        let ghost next = c + 20 + vlen;
        assert(parse_row(s, c as int) == Ok::<(OpFields, int), CodecFault>((fields, next)));
        rows.push((key, Some(value)));
        proof {
            assert(ops_view(rows@) =~= before + seq![fields]);
            if let Ok((more, end)) = parse_rows(s, next, n - i - 1) {
                assert(before + (seq![fields] + more) =~= (before + seq![fields]) + more);
            }
        }
        c = c + 20 + vlen;
        i += 1;
    }
    reveal_with_fuel(parse_rows, 1);
    assert(ops_view(rows@) + Seq::<OpFields>::empty() =~= ops_view(rows@));
    if c != len {
        return Err(corrupt("snapshot length mismatch"));
    }
    let mut store = TxnStore::new();
    store.apply_ops(commit_ts, &rows);
    Ok((store, commit_ts))
}

proof fn lemma_row_at(s: Seq<u8>, c: int, o: OpFields)
    requires
        o.key.len() == KEY_SIZE,
        o.value is Some,
        value_ok(o.value),
        0 <= c,
        c + snapshot_entry(o).len() <= s.len(),
        s.subrange(c, c + snapshot_entry(o).len()) == snapshot_entry(o),
    ensures
        parse_row(s, c) == Ok::<(OpFields, int), CodecFault>((o, c + snapshot_entry(o).len())),
{
    let b = snapshot_entry(o);
    let v = o.value->0;
    assert forall|i: int| 0 <= i < b.len() implies s[c + i] == #[trigger] b[i] by {
        assert(s.subrange(c, c + b.len())[i] == s[c + i]);
    }
    assert forall|i: int| 0 <= i < 16 implies s[c + i] == #[trigger] o.key[i] by {
        assert(b[i] == o.key[i]);
    }
    assert(s.subrange(c, c + 16) =~= o.key);
    let n = le4(v.len() as int);
    assert forall|i: int| 0 <= i < 4 implies s[c + 16 + i] == #[trigger] n[i] by {
        assert(b[16 + i] == n[i]);
    }
    assert(s.subrange(c + 16, c + 20) =~= n);
    lemma_field4(s, c + 16, v.len() as int);
    assert forall|i: int| 0 <= i < v.len() implies s[c + 20 + i] == #[trigger] v[i] by {
        assert(b[20 + i] == v[i]);
    }
    assert(s.subrange(c + 20, c + 20 + v.len()) =~= v);
}

proof fn lemma_rows_prefix(rows: Seq<OpFields>, i: int, n: int)
    requires
        0 <= i <= n <= rows.len(),
    ensures
        snapshot_entries(rows, i).len() <= snapshot_entries(rows, n).len(),
        snapshot_entries(rows, n).subrange(0, snapshot_entries(rows, i).len() as int)
            == snapshot_entries(rows, i),
    decreases n,
{
    let front = snapshot_entries(rows, i).len() as int;
    if i < n {
        lemma_rows_prefix(rows, i, n - 1);
        assert(snapshot_entries(rows, n).subrange(0, front) =~= snapshot_entries(
            rows,
            n - 1,
        ).subrange(0, front));
    } else {
        assert(snapshot_entries(rows, n).subrange(0, front) =~= snapshot_entries(rows, i));
    }
}

pub open spec fn all_present(rows: Seq<OpFields>) -> bool {
    forall|i: int| 0 <= i < rows.len() ==> (#[trigger] rows[i]).value is Some
}

proof fn lemma_parse_rows(s: Seq<u8>, rows: Seq<OpFields>, i: int)
    requires
        0 <= i <= rows.len(),
        ops_ok(rows),
        keys_sized(rows),
        all_present(rows),
        20 + snapshot_entries(rows, rows.len() as int).len() == s.len(),
        s.subrange(20, s.len() as int) == snapshot_entries(rows, rows.len() as int),
    ensures
        parse_rows(s, 20int + snapshot_entries(rows, i).len(), rows.len() - i) == Ok::<
            (Seq<OpFields>, int),
            CodecFault,
        >((rows.skip(i), s.len() as int)),
    decreases rows.len() - i,
{
    reveal_with_fuel(parse_rows, 1);
    let n = rows.len() as int;
    if i < n {
        let c = 20int + snapshot_entries(rows, i).len();
        let o = rows[i];
        let b = snapshot_entry(o);
        lemma_rows_prefix(rows, i + 1, n);
        let whole = s.subrange(20, s.len() as int);
        let front = whole.subrange(0, snapshot_entries(rows, i + 1).len() as int);
        assert(front == snapshot_entries(rows, i) + b);
        assert(s.subrange(c, c + b.len()) =~= front.subrange(c - 20, c - 20 + b.len()));
        assert(front.subrange(c - 20, c - 20 + b.len()) =~= b);
        lemma_row_at(s, c, o);
        lemma_parse_rows(s, rows, i + 1);
        assert(seq![o] + rows.skip(i + 1) =~= rows.skip(i));
    } else {
        assert(rows.skip(i) =~= seq![]);
    }
}

/// A snapshot that was encoded is decoded again.
pub proof fn law_snapshot_round_trip(ts: u64, rows: Seq<OpFields>)
    requires
        rows.len() <= u32::MAX,
        ops_ok(rows),
        keys_sized(rows),
        all_present(rows),
    ensures
        parse_snapshot(snapshot_bytes(ts, rows)) == Ok::<(u64, Seq<OpFields>), CodecFault>(
            (ts, rows),
        ),
{
    let s = snapshot_bytes(ts, rows);
    let h = snapshot_head(ts, rows.len() as int);
    assert(h.len() == 20 && h.subrange(0, 4) =~= le4(SNAPSHOT_MAGIC as int) && h.subrange(4, 8)
        =~= le4(SNAPSHOT_VERSION as int) && h.subrange(8, 16) =~= le8(ts as int) && h.subrange(
        16,
        20,
    ) =~= le4(rows.len() as int)) by {
        reveal(snapshot_head);
    }
    assert(s.subrange(0, 4) =~= h.subrange(0, 4));
    assert(s.subrange(4, 8) =~= h.subrange(4, 8));
    assert(s.subrange(8, 16) =~= h.subrange(8, 16));
    assert(s.subrange(16, 20) =~= h.subrange(16, 20));
    lemma_field4(s, 0, SNAPSHOT_MAGIC as int);
    lemma_field4(s, 4, SNAPSHOT_VERSION as int);
    lemma_field8(s, 8, ts as int);
    lemma_field4(s, 16, rows.len() as int);
    assert(s.subrange(20, s.len() as int) =~= snapshot_entries(rows, rows.len() as int));
    lemma_parse_rows(s, rows, 0);
    assert(rows.skip(0) =~= rows);
}

/// What is left of a history in a snapshot at `ts`: the newest value, unless
/// the row is deleted.
pub open spec fn snapshot_history(h: Seq<VersionFields>, ts: u64) -> Seq<VersionFields> {
    if h.len() > 0 && h.last().value is Some {
        seq![VersionFields { commit_ts: ts, value: h.last().value }]
    } else {
        seq![]
    }
}

proof fn lemma_newest_values(es: Seq<(Key, Vec<Version>)>, n: int, k: Seq<u8>, ts: u64)
    requires
        crate::key_map::entries_ascend(es),
        0 <= n <= es.len(),
    ensures
        history_after_ops(
            seq![],
            k,
            ts,
            newest_values(es, n),
            newest_values(es, n).len() as int,
        ) == if has_key(es, k) && key_place(es, k) < n {
            snapshot_history(versions_view(es[key_place(es, k)].1@), ts)
        } else {
            seq![]
        },
    decreases n,
{
    if n > 0 {
        lemma_newest_values(es, n - 1, k, ts);
        lemma_place(es, n - 1);
        let prev = newest_values(es, n - 1);
        let rows = newest_values(es, n);
        if rows != prev {
            lemma_ops_pushed(seq![], k, ts, prev, rows.last(), prev.len() as int);
            assert(rows =~= prev.push(rows.last()));
            if es[n - 1].0@ == k {
                assert(history_after_ops(seq![], k, ts, rows, rows.len() as int)
                    =~= snapshot_history(versions_view(es[n - 1].1@), ts));
            }
        }
    }
}

proof fn lemma_ops_pushed(
    h: Seq<VersionFields>,
    k: Seq<u8>,
    ts: u64,
    ops: Seq<OpFields>,
    o: OpFields,
    n: int,
)
    requires
        0 <= n <= ops.len(),
    ensures
        history_after_ops(h, k, ts, ops.push(o), n) == history_after_ops(h, k, ts, ops, n),
    decreases n,
{
    if n > 0 {
        lemma_ops_pushed(h, k, ts, ops, o, n - 1);
        assert(ops.push(o)[n - 1] == ops[n - 1]);
    }
}

/// A store read back from its snapshot holds the newest value of every row that
/// is not deleted, at the timestamp of the snapshot.
pub proof fn law_snapshot_keeps_newest(store: TxnStore, ts: u64, k: Seq<u8>)
    requires
        store.wf(),
    ensures
        ({
            let rows = newest_values(store.rows.entries@, store.rows.entries@.len() as int);
            history_after_ops(seq![], k, ts, rows, rows.len() as int) == snapshot_history(
                store.history(k),
                ts,
            )
        }),
{
    lemma_newest_values(store.rows.entries@, store.rows.entries@.len() as int, k, ts);
}

/// Recovery continues at the newest timestamp: no commit of the log and no snapshot is
/// above it, and it is one of them.
pub proof fn law_newest_ts_bounds_commits(base_ts: u64, cs: Seq<(u64, Seq<OpFields>)>, n: int)
    requires
        0 <= n <= cs.len(),
    ensures
        newest_ts(base_ts, cs, n) >= base_ts,
        forall|i: int| 0 <= i < n ==> (#[trigger] cs[i]).0 <= newest_ts(base_ts, cs, n),
        newest_ts(base_ts, cs, n) == base_ts || exists|i: int|
            0 <= i < n && (#[trigger] cs[i]).0 == newest_ts(base_ts, cs, n),
    decreases n,
{
    if n > 0 {
        law_newest_ts_bounds_commits(base_ts, cs, n - 1);
        let prev = newest_ts(base_ts, cs, n - 1);
        if cs[n - 1].0 > prev {
            assert(0 <= n - 1 < n && cs[n - 1].0 == newest_ts(base_ts, cs, n));
        } else if prev != base_ts {
            let i = choose|i: int| 0 <= i < n - 1 && (#[trigger] cs[i]).0 == prev;
            assert(0 <= i < n && cs[i].0 == newest_ts(base_ts, cs, n));
        }
    }
}

/// A payload is taken only with the checksum that was stored for it, and then just what
/// it says is taken.
pub proof fn law_damaged_payload_is_refused(payload: Seq<u8>, stored: u32, actual: u32)
    ensures
        stored != actual ==> accepted(payload, stored, actual) is None,
        accepted(payload, stored, actual) matches Some(v) ==> stored == actual && parse_payload(
            payload,
        ) == Ok::<(u64, Seq<OpFields>), CodecFault>(v),
        stored == actual && parse_payload(payload) is Ok ==> accepted(payload, stored, actual)
            is Some,
{
}

proof fn lemma_torn(s: Seq<u8>, tail: Seq<u8>, c: int)
    requires
        0 <= c <= s.len(),
        wal_commits(s, c).1 == s.len(),
        record_at(s + tail, s.len() as int) is None,
    ensures
        wal_commits(s + tail, c) == (wal_commits(s, c).0, s.len() as int),
    decreases s.len() - c,
{
    let e = s + tail;
    lemma_commits_step(s, c);
    lemma_commits_step(e, c);
    if c < s.len() {
        let (v, next) = record_at(s, c)->0;
        assert(e.subrange(0, s.len() as int) =~= s);
        lemma_record_in_front(s, e, c);
        lemma_torn(s, tail, next);
    }
}

/// A log whose last record was cut off, in its header or in its payload, gives the
/// commits before it, and is found to be readable up to there.
pub proof fn law_torn_record_is_left_out(s: Seq<u8>, tail: Seq<u8>)
    requires
        wal_commits(s, 0).1 == s.len(),
        tail.len() < 12 || tail.len() < 12 + u32_at(tail, 4),
    ensures
        wal_commits(s + tail, 0).0 == wal_commits(s, 0).0,
        wal_commits(s + tail, 0).1 == s.len(),
{
    let e = s + tail;
    let c = s.len() as int;
    if tail.len() >= 12 {
        assert(e[c + 4] == tail[4] && e[c + 5] == tail[5] && e[c + 6] == tail[6] && e[c + 7]
            == tail[7]);
    }
    lemma_torn(s, tail, 0);
}

/// A record of the log has 12 bytes in front of its payload: the magic number, the length
/// of the payload and its checksum. One that does not end within the log is none.
pub proof fn law_record_layout(s: Seq<u8>, c: int)
    ensures
        record_span(s, c) is Some <==> c + 12 <= s.len() && u32_at(s, c) == 0x534B5657 && c + 12
            + u32_at(s, c + 4) <= s.len(),
        record_span(s, c) matches Some((a, b, crc)) ==> a == c + 12 && b == a + u32_at(s, c + 4)
            && crc == u32_at(s, c + 8),
{
}

/// The first write with a value over 1024 bytes is the one that is complained of.
pub proof fn law_first_long_value(ops: Seq<OpFields>, i: int)
    ensures
        first_long(ops, i) <==> 0 <= i < ops.len() && !value_ok(ops[i].value) && forall|j: int|
            0 <= j < ops.len() && !value_ok((#[trigger] ops[j]).value) ==> i <= j,
{
    if 0 <= i < ops.len() && !value_ok(ops[i].value) && (forall|j: int|
        0 <= j < ops.len() && !value_ok((#[trigger] ops[j]).value) ==> i <= j) {
        assert forall|j: int| 0 <= j < i implies value_ok((#[trigger] ops[j]).value) by {}
    }
}

} // verus!
