//! The page that lists the secondary indexes.
//!
//! ```text
//! 0..8    magic             8..12   version   12..14  number of indexes
//! 14..22  first log page    22..30  last log page    30..38  next log page
//! 38..    entries: name length, 48 bytes for the name, offset, length, kind
//! ```
//!
//! Version 1 has no log; its entries begin at 14.
use vstd::prelude::*;

use vstd::string::*;
use vstd::utf8::*;

use crate::common::{bytes_view, io_error, is_io_error, page_from_vec, Error, IoErrorKind, Page,
    PageId, Result, PAGE_SIZE, VALUE_SIZE};
use crate::layout::{bytes_eq, get_u16, get_u32, get_u64, le2, le4, le8, lemma_field2, lemma_field4,
    lemma_field8, push_bytes, push_u16, push_u32, push_u64, u16_at, u32_at, u64_at, zeroed, zeros};
use crate::secondary_index::{defs_view, range_message, range_text, DefFields,
    SecondaryIndexDefinition, SecondaryIndexKind};
use crate::secondary_posting_log::{SecondaryPostingLogState, SECONDARY_POSTING_LOG_BASE_PAGE_ID};
use crate::text::{dec, join_num, text_num2, utf8_error_text, utf8_string};

verus! {

pub const SECONDARY_INDEX_META_PAGE_ID: PageId = 9;

pub const VERSION_V1: u32 = 1;

pub const VERSION_V2: u32 = 2;

/// Longest index name in bytes.
pub const NAME_MAX: usize = 48;

/// Bytes of an entry.
pub const ENTRY_SIZE: usize = 59;

pub const KIND_BTREE: u8 = 1;

pub const OFF_ENTRIES_V1: usize = 14;

pub const OFF_ENTRIES_V2: usize = 38;

/// Most entries that a page holds.
pub const MAX_ENTRIES: usize = 277;

#[derive(Clone, Debug, PartialEq, Eq)]
pub struct SecondaryIndexCatalog {
    pub defs: Vec<SecondaryIndexDefinition>,
    pub posting_log: SecondaryPostingLogState,
}

/// What a catalog says.
#[verifier::ext_equal]
pub struct CatalogFields {
    pub defs: Seq<DefFields>,
    pub posting_log: SecondaryPostingLogState,
}

impl View for SecondaryIndexCatalog {
    type V = CatalogFields;

    open spec fn view(&self) -> CatalogFields {
        CatalogFields { defs: defs_view(self.defs@), posting_log: self.posting_log }
    }
}

/// `SKS2IDX` and a zero byte.
pub open spec fn catalog_magic() -> Seq<u8> {
    seq![83u8, 75, 83, 50, 73, 68, 88, 0]
}

/// The bytes of an entry.
#[verifier::opaque]
pub open spec fn entry_bytes(d: DefFields) -> Seq<u8> {
    let name = encode_utf8(d.name);
    le2(name.len() as int) + name + zeros(NAME_MAX - name.len()) + le4(d.value_offset as int) + le4(
        d.value_len as int,
    ) + seq![KIND_BTREE]
}

/// The first `n` entries one after another.
pub open spec fn entries_bytes(ds: Seq<DefFields>, n: int) -> Seq<u8>
    decreases n,
{
    if n <= 0 {
        seq![]
    } else {
        entries_bytes(ds, n - 1) + entry_bytes(ds[n - 1])
    }
}

#[verifier::opaque]
pub open spec fn catalog_head(c: CatalogFields) -> Seq<u8> {
    catalog_magic() + le4(VERSION_V2 as int) + le2(c.defs.len() as int) + le8(
        c.posting_log.head_page_id as int,
    ) + le8(c.posting_log.tail_page_id as int) + le8(c.posting_log.next_page_id as int)
}

/// The bytes of the page.
pub open spec fn catalog_bytes(c: CatalogFields) -> Seq<u8> {
    catalog_head(c) + entries_bytes(c.defs, c.defs.len() as int) + zeros(
        PAGE_SIZE - OFF_ENTRIES_V2 - ENTRY_SIZE * c.defs.len(),
    )
}

/// Why a definition cannot stand on the page.
pub open spec fn entry_fault(d: DefFields) -> Option<Seq<char>> {
    if !(0 < encode_utf8(d.name).len() <= NAME_MAX) {
        Some("secondary index name len must be 1.."@ + dec(NAME_MAX as int) + ": "@ + d.name)
    } else if d.value_len == 0 || d.value_offset + d.value_len > VALUE_SIZE {
        Some(range_message(d.value_offset as int, d.value_len as int))
    } else {
        None
    }
}

/// The definition at `i` is the first that cannot stand on the page.
pub open spec fn first_entry_fault(ds: Seq<DefFields>, i: int) -> bool {
    &&& 0 <= i < ds.len()
    &&& entry_fault(ds[i]) is Some
    &&& forall|j: int| 0 <= j < i ==> entry_fault(#[trigger] ds[j]) is None
}

/// The catalog can stand on a page.
pub open spec fn catalog_ok(c: CatalogFields) -> bool {
    &&& c.defs.len() <= MAX_ENTRIES
    &&& forall|i: int| 0 <= i < c.defs.len() ==> entry_fault(#[trigger] c.defs[i]) is None
}

/// The error for a catalog that cannot stand on a page.
pub open spec fn catalog_error(c: CatalogFields, e: Error) -> bool {
    if c.defs.len() > MAX_ENTRIES {
        is_io_error(
            e,
            IoErrorKind::InvalidInput,
            "too many secondary indexes: "@ + dec(c.defs.len() as int) + " (max "@ + dec(
                MAX_ENTRIES as int,
            ) + ")"@,
        )
    } else {
        exists|i: int| #[trigger]
            first_entry_fault(c.defs, i) && is_io_error(
                e,
                IoErrorKind::InvalidInput,
                entry_fault(c.defs[i])->0,
            )
    }
}

proof fn lemma_entry_len(d: DefFields)
    requires
        encode_utf8(d.name).len() <= NAME_MAX,
    ensures
        entry_bytes(d).len() == ENTRY_SIZE,
{
    reveal(entry_bytes);
}

fn push_entry(out: &mut Vec<u8>, d: &SecondaryIndexDefinition)
    requires
        entry_fault(d@) is None,
    ensures
        final(out)@ == old(out)@ + entry_bytes(d@),
{
    reveal(entry_bytes);
    let name = d.name.as_str().as_bytes();
    let len: usize = name.len();
    let SecondaryIndexKind::Btree { value_offset, value_len } = d.kind;
    push_u16(out, len as u16);
    push_bytes(out, name);
    let pad: Vec<u8> = zeroed(NAME_MAX - len);
    push_bytes(out, pad.as_slice());
    push_u32(out, value_offset as u32);
    push_u32(out, value_len as u32);
    out.push(KIND_BTREE);
    assert(out@ =~= old(out)@ + entry_bytes(d@));
}

/// The page of a catalog.
pub fn encode_secondary_index_catalog(catalog: &SecondaryIndexCatalog) -> (r: Result<Page>)
    ensures
        match r {
            Ok(p) => catalog_ok(catalog@) && bytes_view(p) == catalog_bytes(catalog@),
            Err(e) => !catalog_ok(catalog@) && catalog_error(catalog@, e),
        },
{
    let ghost c = catalog@;
    let n: usize = catalog.defs.len();
    if n > MAX_ENTRIES {
        let mut m = text_num2(
            "too many secondary indexes: ",
            n as u64,
            " (max ",
            MAX_ENTRIES as u64,
        );
        m.append(")");
        return Err(io_error(IoErrorKind::InvalidInput, m.as_str()));
    }
    let mut p: Vec<u8> = Vec::new();
    let magic: [u8; 8] = [83u8, 75, 83, 50, 73, 68, 88, 0];
    assert(magic@ =~= catalog_magic());
    push_bytes(&mut p, magic.as_slice());
    push_u32(&mut p, VERSION_V2);
    push_u16(&mut p, n as u16);
    push_u64(&mut p, catalog.posting_log.head_page_id);
    push_u64(&mut p, catalog.posting_log.tail_page_id);
    push_u64(&mut p, catalog.posting_log.next_page_id);
    assert(p@ =~= catalog_head(c)) by {
        reveal(catalog_head);
    }
    assert(p@.len() == 38) by {
        reveal(catalog_head);
    }
    assert(p@ =~= catalog_head(c) + entries_bytes(c.defs, 0));
    let mut i: usize = 0;
    while i < n
        invariant
            n == catalog.defs@.len(),
            c == catalog@,
            n <= MAX_ENTRIES,
            i <= n,
            p@ == catalog_head(c) + entries_bytes(c.defs, i as int),
            p@.len() == OFF_ENTRIES_V2 + ENTRY_SIZE * i,
            forall|j: int| 0 <= j < i ==> entry_fault(#[trigger] c.defs[j]) is None,
        decreases n - i,
    {
        let d = &catalog.defs[i];
        assert(c.defs[i as int] == d@);
        let name = d.name.as_str();
        let len: usize = name.as_bytes().len();
        let SecondaryIndexKind::Btree { value_offset, value_len } = d.kind;
        if len == 0 || len > NAME_MAX {
            assert(first_entry_fault(c.defs, i as int));
            let mut m = join_num("secondary index name len must be 1..", NAME_MAX as u64);
            m.append(": ");
            m.append(name);
            return Err(io_error(IoErrorKind::InvalidInput, m.as_str()));
        }
        if value_len == 0 || value_offset > VALUE_SIZE || value_len > VALUE_SIZE - value_offset {
            assert(first_entry_fault(c.defs, i as int));
            let m = range_text(value_offset, value_len);
            return Err(io_error(IoErrorKind::InvalidInput, m.as_str()));
        }
        let ghost before = p@;
        proof {
            lemma_entry_len(d@);
        }
        push_entry(&mut p, d);
        assert(p@ =~= catalog_head(c) + entries_bytes(c.defs, i + 1));
        i += 1;
    }
    let rest: Vec<u8> = zeroed(PAGE_SIZE - OFF_ENTRIES_V2 - ENTRY_SIZE * n);
    push_bytes(&mut p, rest.as_slice());
    assert(p@ =~= catalog_bytes(c));
    Ok(page_from_vec(p))
}

/// The entry at `o`, or what is wrong with it.
pub open spec fn parse_entry(s: Seq<u8>, o: int) -> std::result::Result<DefFields, Seq<char>> {
    let n = u16_at(s, o);
    let name = s.subrange(o + 2, o + 2 + n);
    if n == 0 || n > NAME_MAX {
        Err("invalid secondary index name length: "@ + dec(n))
    } else if !valid_utf8(name) {
        Err(utf8_error_text(name))
    } else if s[o + 58] != KIND_BTREE {
        Err("unsupported secondary index kind: "@ + dec(s[o + 58] as int))
    } else {
        Ok(
            DefFields {
                name: decode_utf8(name),
                value_offset: u32_at(s, o + 50) as usize,
                value_len: u32_at(s, o + 54) as usize,
            },
        )
    }
}

/// `n` entries from `o` on.
#[verifier::opaque]
pub open spec fn parse_entries(s: Seq<u8>, o: int, n: int) -> std::result::Result<
    Seq<DefFields>,
    Seq<char>,
>
    decreases n,
{
    if n <= 0 {
        Ok(seq![])
    } else {
        match parse_entry(s, o) {
            Ok(d) => after_defs(seq![d], parse_entries(s, o + ENTRY_SIZE, n - 1)),
            Err(m) => Err(m),
        }
    }
}

pub open spec fn after_defs(
    ds: Seq<DefFields>,
    p: std::result::Result<Seq<DefFields>, Seq<char>>,
) -> std::result::Result<Seq<DefFields>, Seq<char>> {
    match p {
        Ok(more) => Ok(ds + more),
        Err(m) => Err(m),
    }
}

pub open spec fn page_defs(s: Seq<u8>, off_entries: int) -> std::result::Result<
    Seq<DefFields>,
    Seq<char>,
> {
    let n = u16_at(s, 12);
    if n > MAX_ENTRIES {
        Err("invalid secondary index count: "@ + dec(n))
    } else {
        parse_entries(s, off_entries, n)
    }
}

/// The state of the log as the page gives it; page ids below the base are not
/// given out.
pub open spec fn page_log(s: Seq<u8>) -> SecondaryPostingLogState {
    if u32_at(s, 8) == VERSION_V1 {
        SecondaryPostingLogState {
            head_page_id: 0,
            tail_page_id: 0,
            next_page_id: SECONDARY_POSTING_LOG_BASE_PAGE_ID,
        }
    } else {
        SecondaryPostingLogState {
            head_page_id: u64_at(s, 14) as u64,
            tail_page_id: u64_at(s, 22) as u64,
            next_page_id: if u64_at(s, 30) < SECONDARY_POSTING_LOG_BASE_PAGE_ID {
                SECONDARY_POSTING_LOG_BASE_PAGE_ID
            } else {
                u64_at(s, 30) as u64
            },
        }
    }
}

/// Where the entries begin.
pub open spec fn entries_offset(s: Seq<u8>) -> int {
    if u32_at(s, 8) == VERSION_V1 {
        OFF_ENTRIES_V1 as int
    } else {
        OFF_ENTRIES_V2 as int
    }
}

/// What a page of the right size says, or what is wrong with it.
pub open spec fn parse_catalog(s: Seq<u8>) -> std::result::Result<CatalogFields, Seq<char>> {
    if s.subrange(0, 8) != catalog_magic() {
        Err("invalid secondary index meta magic"@)
    } else if u32_at(s, 8) != VERSION_V1 && u32_at(s, 8) != VERSION_V2 {
        Err("unsupported secondary index meta version: "@ + dec(u32_at(s, 8)))
    } else {
        match page_defs(s, entries_offset(s)) {
            Ok(defs) => Ok(CatalogFields { defs, posting_log: page_log(s) }),
            Err(m) => Err(m),
        }
    }
}

fn decode_defs(page: &[u8], off_entries: usize) -> (r: Result<Vec<SecondaryIndexDefinition>>)
    requires
        page@.len() == PAGE_SIZE,
        off_entries <= OFF_ENTRIES_V2,
    ensures
        match page_defs(page@, off_entries as int) {
            Ok(ds) => r matches Ok(v) && defs_view(v@) == ds,
            Err(m) => r matches Err(e) && is_io_error(e, IoErrorKind::InvalidData, m),
        },
{
    let ghost s = page@;
    let n: usize = get_u16(page, 12) as usize;
    if n > MAX_ENTRIES {
        let m = join_num("invalid secondary index count: ", n as u64);
        return Err(io_error(IoErrorKind::InvalidData, m.as_str()));
    }
    let mut out: Vec<SecondaryIndexDefinition> = Vec::new();
    let mut off: usize = off_entries;
    let mut i: usize = 0;
    let ghost whole = parse_entries(s, off_entries as int, n as int);
    assert(after_defs(defs_view(out@), whole) == whole) by {
        if let Ok(more) = whole {
            assert(defs_view(out@) + more =~= more);
        }
    }
    while i < n
        invariant
            s == page@,
            s.len() == PAGE_SIZE,
            n <= MAX_ENTRIES,
            i <= n,
            off_entries <= OFF_ENTRIES_V2,
            off == off_entries + ENTRY_SIZE * i,
            whole == page_defs(s, off_entries as int),
            whole == after_defs(defs_view(out@), parse_entries(s, off as int, n - i)),
        decreases n - i,
    {
        reveal_with_fuel(parse_entries, 1);
        let name_len: usize = get_u16(page, off) as usize;
        if name_len == 0 || name_len > NAME_MAX {
            let m = join_num("invalid secondary index name length: ", name_len as u64);
            return Err(io_error(IoErrorKind::InvalidData, m.as_str()));
        }
        let name_bytes = vstd::slice::slice_subrange(page, off + 2, off + 2 + name_len);
        let name = match utf8_string(name_bytes) {
            Ok(t) => t,
            Err(m) => {
                return Err(io_error(IoErrorKind::InvalidData, m.as_str()));
            },
        };
        let value_offset: usize = get_u32(page, off + 50) as usize;
        let value_len: usize = get_u32(page, off + 54) as usize;
        let kind: u8 = page[off + 58];
        if kind != KIND_BTREE {
            let m = join_num("unsupported secondary index kind: ", kind as u64);
            return Err(io_error(IoErrorKind::InvalidData, m.as_str()));
        }
        let d = SecondaryIndexDefinition {
            name,
            kind: SecondaryIndexKind::Btree { value_offset, value_len },
        };
        let ghost before = defs_view(out@);
        let ghost fields = d@;
        assert(parse_entry(s, off as int) == Ok::<DefFields, Seq<char>>(fields));
        out.push(d);
        proof {
            assert(defs_view(out@) =~= before + seq![fields]);
            if let Ok(more) = parse_entries(s, off + ENTRY_SIZE, n - i - 1) {
                assert(before + (seq![fields] + more) =~= (before + seq![fields]) + more);
            }
        }
        off = off + ENTRY_SIZE;
        i += 1;
    }
    reveal_with_fuel(parse_entries, 1);
    assert(defs_view(out@) + Seq::<DefFields>::empty() =~= defs_view(out@));
    Ok(out)
}

/// The catalog on a page.
pub fn decode_secondary_index_catalog(page: &[u8]) -> (r: Result<SecondaryIndexCatalog>)
    ensures
        if page@.len() != PAGE_SIZE {
            r matches Err(Error::InvalidPageSize(a, b)) && a == page@.len() && b == PAGE_SIZE
        } else {
            match parse_catalog(page@) {
                Ok(c) => r matches Ok(v) && v@ == c,
                Err(m) => r matches Err(e) && is_io_error(e, IoErrorKind::InvalidData, m),
            }
        },
{
    if page.len() != PAGE_SIZE {
        return Err(Error::InvalidPageSize(page.len(), PAGE_SIZE));
    }
    let magic: [u8; 8] = [83u8, 75, 83, 50, 73, 68, 88, 0];
    assert(magic@ =~= catalog_magic());
    if !bytes_eq(vstd::slice::slice_subrange(page, 0, 8), magic.as_slice()) {
        return Err(io_error(IoErrorKind::InvalidData, "invalid secondary index meta magic"));
    }
    let ver: u32 = get_u32(page, 8);
    if ver == VERSION_V1 {
        match decode_defs(page, OFF_ENTRIES_V1) {
            Ok(defs) => Ok(
                SecondaryIndexCatalog {
                    defs,
                    posting_log: SecondaryPostingLogState {
                        head_page_id: 0,
                        tail_page_id: 0,
                        next_page_id: SECONDARY_POSTING_LOG_BASE_PAGE_ID,
                    },
                },
            ),
            Err(e) => Err(e),
        }
    } else if ver == VERSION_V2 {
        match decode_defs(page, OFF_ENTRIES_V2) {
            Ok(defs) => {
                let next: u64 = get_u64(page, 30);
                Ok(
                    SecondaryIndexCatalog {
                        defs,
                        posting_log: SecondaryPostingLogState {
                            head_page_id: get_u64(page, 14),
                            tail_page_id: get_u64(page, 22),
                            next_page_id: if next < SECONDARY_POSTING_LOG_BASE_PAGE_ID {
                                SECONDARY_POSTING_LOG_BASE_PAGE_ID
                            } else {
                                next
                            },
                        },
                    },
                )
            },
            Err(e) => Err(e),
        }
    } else {
        let m = join_num("unsupported secondary index meta version: ", ver as u64);
        Err(io_error(IoErrorKind::InvalidData, m.as_str()))
    }
}

proof fn lemma_entries_len(ds: Seq<DefFields>, n: int)
    requires
        0 <= n <= ds.len(),
        forall|i: int| 0 <= i < n ==> entry_fault(#[trigger] ds[i]) is None,
    ensures
        entries_bytes(ds, n).len() == ENTRY_SIZE * n,
    decreases n,
{
    if n > 0 {
        lemma_entries_len(ds, n - 1);
        lemma_entry_len(ds[n - 1]);
    }
}

/// Entry `i` of `n` stands at its place.
proof fn lemma_entry_at(ds: Seq<DefFields>, n: int, i: int)
    requires
        0 <= i < n <= ds.len(),
        forall|j: int| 0 <= j < n ==> entry_fault(#[trigger] ds[j]) is None,
    ensures
        entries_bytes(ds, n).len() == ENTRY_SIZE * n,
        entries_bytes(ds, n).subrange(ENTRY_SIZE * i, ENTRY_SIZE * i + ENTRY_SIZE) == entry_bytes(
            ds[i],
        ),
    decreases n,
{
    lemma_entries_len(ds, n);
    lemma_entries_len(ds, n - 1);
    lemma_entry_len(ds[n - 1]);
    let whole = entries_bytes(ds, n);
    if i == n - 1 {
        assert(whole.subrange(ENTRY_SIZE * i, ENTRY_SIZE * i + ENTRY_SIZE) =~= entry_bytes(ds[i]));
    } else {
        lemma_entry_at(ds, n - 1, i);
        assert(whole.subrange(ENTRY_SIZE * i, ENTRY_SIZE * i + ENTRY_SIZE) =~= entries_bytes(
            ds,
            n - 1,
        ).subrange(ENTRY_SIZE * i, ENTRY_SIZE * i + ENTRY_SIZE));
    }
}

proof fn lemma_entry_fields(s: Seq<u8>, o: int, d: DefFields)
    requires
        entry_fault(d) is None,
        0 <= o,
        o + ENTRY_SIZE <= s.len(),
        s.subrange(o, o + ENTRY_SIZE) == entry_bytes(d),
    ensures
        parse_entry(s, o) == Ok::<DefFields, Seq<char>>(d),
{
    let b = entry_bytes(d);
    let name = encode_utf8(d.name);
    let n = name.len() as int;
    reveal(entry_bytes);
    assert forall|i: int| 0 <= i < ENTRY_SIZE implies s[o + i] == #[trigger] b[i] by {
        assert(s.subrange(o, o + ENTRY_SIZE)[i] == s[o + i]);
    }
    assert(b[0] == le2(n)[0] && b[1] == le2(n)[1]);
    assert(s.subrange(o, o + 2) =~= le2(n));
    lemma_field2(s, o, n);
    assert forall|i: int| 0 <= i < n implies s[o + 2 + i] == #[trigger] name[i] by {
        assert(b[2 + i] == name[i]);
    }
    assert(s.subrange(o + 2, o + 2 + n) =~= name);
    let off = le4(d.value_offset as int);
    assert forall|i: int| 0 <= i < 4 implies s[o + 50 + i] == #[trigger] off[i] by {
        assert(b[50 + i] == off[i]);
    }
    assert(s.subrange(o + 50, o + 54) =~= off);
    lemma_field4(s, o + 50, d.value_offset as int);
    let len = le4(d.value_len as int);
    assert forall|i: int| 0 <= i < 4 implies s[o + 54 + i] == #[trigger] len[i] by {
        assert(b[54 + i] == len[i]);
    }
    assert(s.subrange(o + 54, o + 58) =~= len);
    lemma_field4(s, o + 54, d.value_len as int);
    assert(b[58] == KIND_BTREE);
    encode_utf8_valid_utf8(d.name);
    encode_utf8_decode_utf8(d.name);
}

proof fn lemma_parse_defs(s: Seq<u8>, ds: Seq<DefFields>, i: int)
    requires
        0 <= i <= ds.len(),
        OFF_ENTRIES_V2 + ENTRY_SIZE * ds.len() <= s.len(),
        forall|j: int| 0 <= j < ds.len() ==> entry_fault(#[trigger] ds[j]) is None,
        s.subrange(OFF_ENTRIES_V2 as int, OFF_ENTRIES_V2 + ENTRY_SIZE * ds.len()) == entries_bytes(
            ds,
            ds.len() as int,
        ),
    ensures
        parse_entries(s, OFF_ENTRIES_V2 + ENTRY_SIZE * i, ds.len() - i) == Ok::<
            Seq<DefFields>,
            Seq<char>,
        >(ds.skip(i)),
    decreases ds.len() - i,
{
    reveal_with_fuel(parse_entries, 1);
    if i < ds.len() {
        let o = OFF_ENTRIES_V2 + ENTRY_SIZE * i;
        lemma_entry_at(ds, ds.len() as int, i);
        let whole = s.subrange(OFF_ENTRIES_V2 as int, OFF_ENTRIES_V2 + ENTRY_SIZE * ds.len());
        assert(s.subrange(o, o + ENTRY_SIZE) =~= whole.subrange(
            ENTRY_SIZE * i,
            ENTRY_SIZE * i + ENTRY_SIZE,
        ));
        lemma_entry_fields(s, o, ds[i]);
        lemma_parse_defs(s, ds, i + 1);
        assert(seq![ds[i]] + ds.skip(i + 1) =~= ds.skip(i));
    } else {
        assert(ds.skip(i) =~= seq![]);
    }
}

proof fn lemma_catalog_head(s: Seq<u8>, c: CatalogFields)
    requires
        s.len() >= 38,
        s.subrange(0, 38) == catalog_head(c),
        c.defs.len() <= MAX_ENTRIES,
    ensures
        s.subrange(0, 8) == catalog_magic(),
        u32_at(s, 8) == VERSION_V2,
        u16_at(s, 12) == c.defs.len(),
        u64_at(s, 14) == c.posting_log.head_page_id,
        u64_at(s, 22) == c.posting_log.tail_page_id,
        u64_at(s, 30) == c.posting_log.next_page_id,
{
    let h = s.subrange(0, 38);
    reveal(catalog_head);
    assert(s.subrange(0, 8) =~= h.subrange(0, 8) && h.subrange(0, 8) =~= catalog_magic());
    assert(s.subrange(8, 12) =~= h.subrange(8, 12) && h.subrange(8, 12) =~= le4(VERSION_V2 as int));
    lemma_field4(s, 8, VERSION_V2 as int);
    assert(s.subrange(12, 14) =~= h.subrange(12, 14) && h.subrange(12, 14) =~= le2(
        c.defs.len() as int,
    ));
    lemma_field2(s, 12, c.defs.len() as int);
    assert(s.subrange(14, 22) =~= h.subrange(14, 22) && h.subrange(14, 22) =~= le8(
        c.posting_log.head_page_id as int,
    ));
    lemma_field8(s, 14, c.posting_log.head_page_id as int);
    assert(s.subrange(22, 30) =~= h.subrange(22, 30) && h.subrange(22, 30) =~= le8(
        c.posting_log.tail_page_id as int,
    ));
    lemma_field8(s, 22, c.posting_log.tail_page_id as int);
    assert(s.subrange(30, 38) =~= h.subrange(30, 38) && h.subrange(30, 38) =~= le8(
        c.posting_log.next_page_id as int,
    ));
    lemma_field8(s, 30, c.posting_log.next_page_id as int);
}

/// A catalog that was encoded is decoded again.
pub proof fn law_catalog_round_trip(c: CatalogFields)
    requires
        catalog_ok(c),
        c.posting_log.next_page_id >= SECONDARY_POSTING_LOG_BASE_PAGE_ID,
    ensures
        catalog_bytes(c).len() == PAGE_SIZE,
        parse_catalog(catalog_bytes(c)) == Ok::<CatalogFields, Seq<char>>(c),
{
    let s = catalog_bytes(c);
    let n = c.defs.len() as int;
    lemma_entries_len(c.defs, n);
    assert(catalog_head(c).len() == 38) by {
        reveal(catalog_head);
    }
    assert(s.len() == PAGE_SIZE);
    assert(s.subrange(0, 38) =~= catalog_head(c));
    lemma_catalog_head(s, c);
    assert(s.subrange(38, 38 + ENTRY_SIZE * n) =~= entries_bytes(c.defs, n));
    lemma_parse_defs(s, c.defs, 0);
    assert(c.defs.skip(0) =~= c.defs);
}

/// A definition stands in the catalog exactly if its name has 1 to 48 bytes and its range
/// is not empty and lies within a value of 1024 bytes.
pub proof fn law_what_stands_in_catalog(d: DefFields)
    ensures
        entry_fault(d) is None <==> 1 <= encode_utf8(d.name).len() <= 48 && d.value_len >= 1
            && d.value_offset + d.value_len <= 1024,
{
}

/// What stands where in a catalog entry: the length of the name and the name, and behind
/// room for 48 bytes of it the range and the kind.
pub proof fn law_entry_layout(s: Seq<u8>, o: int)
    requires
        parse_entry(s, o) is Ok,
    ensures
        1 <= u16_at(s, o) <= 48,
        s[o + 58] == 1,
        parse_entry(s, o)->Ok_0.name == decode_utf8(s.subrange(o + 2, o + 2 + u16_at(s, o))),
        parse_entry(s, o)->Ok_0.value_offset == u32_at(s, o + 50) as usize,
        parse_entry(s, o)->Ok_0.value_len == u32_at(s, o + 54) as usize,
{
}

/// A log that no page was given out for, or whose next id is too low, starts at 3000000.
pub proof fn law_log_ids_have_a_base(s: Seq<u8>)
    ensures
        page_log(s).next_page_id >= 3_000_000,
        u32_at(s, 8) == 2 && u64_at(s, 30) >= 3_000_000 ==> page_log(s).next_page_id == u64_at(
            s,
            30,
        ),
        u32_at(s, 8) == 2 ==> page_log(s).head_page_id == u64_at(s, 14) && page_log(s).tail_page_id
            == u64_at(s, 22),
        u32_at(s, 8) == 1 ==> page_log(s).head_page_id == 0 && page_log(s).tail_page_id == 0,
{
}

} // verus!
