//! The byte layout of a B+tree page.
//!
//! ```text
//! 0       page type      20..28  left child
//! 1       level          28      high key present
//! 2..4    key count      29..45  high key
//! 4..12   previous leaf  45..48  zero
//! 12..20  next leaf      48..    entry offsets, 2 bytes each, then the entries
//! ```
use vstd::prelude::*;

use bytes::Bytes;

use crate::common::{bytes_view, page_bytes, page_from_vec, page_slice, Error, Page, PageId, Result,
    KEY_SIZE, PAGE_SIZE, VALUE_SIZE};
use crate::key_order::{be_num, bytes_lt, is_key, lemma_lex_is_num_order, lemma_route_num, lex_lt,
    route_num};
use crate::layout::{bytes_eq, copy_bytes, fill_zero, get_u16, get_u64, le2, le8, lemma_field2,
    lemma_field8, lemma_le2, lemma_le8, push_bytes, push_u16, push_u64, set_bytes, set_u16,
    set_u64, splice, u16_at, u64_at, zeroed};
use crate::undo_pg::UndoPtr;

verus! {

pub const PAGE_TYPE_INTERNAL: u8 = 1;

pub const PAGE_TYPE_LEAF: u8 = 2;

pub const HEADER_SIZE: usize = 48;

pub const OFFSET_ENTRY_SIZE: usize = 2;

/// Bytes of a row inside a leaf: the value and its version fields.
pub const LEAF_VALUE_SIZE: usize = 1060;

pub const CHILD_ID_SIZE: usize = 8;

/// The fixed part of a page.
#[derive(Clone, Copy)]
pub struct PageHeader {
    pub page_type: u8,
    pub level: u8,
    pub key_count: u16,
    pub prev_leaf: Option<PageId>,
    pub next_leaf: Option<PageId>,
    pub left_child: PageId,
    pub high_key: Option<[u8; KEY_SIZE]>,
}

/// A key with its payload.
pub type Entry = (Vec<u8>, Vec<u8>);

/// What a page says: its header fields and its entries in order.
#[verifier::ext_equal]
pub struct NodeModel {
    pub page_type: u8,
    pub level: u8,
    pub prev_leaf: Option<PageId>,
    pub next_leaf: Option<PageId>,
    pub left_child: PageId,
    pub high_key: Option<Seq<u8>>,
    pub entries: Seq<(Seq<u8>, Seq<u8>)>,
}

/// The page link a stored number stands for; zero is no link.
pub open spec fn link_of(v: int) -> Option<PageId> {
    if v == 0 {
        None
    } else {
        Some(v as u64)
    }
}

pub open spec fn value_size_of(page_type: u8) -> int {
    if page_type == PAGE_TYPE_LEAF {
        LEAF_VALUE_SIZE as int
    } else if page_type == PAGE_TYPE_INTERNAL {
        CHILD_ID_SIZE as int
    } else {
        0
    }
}

/// Bytes of one entry.
pub open spec fn entry_size_of(page_type: u8) -> int {
    KEY_SIZE + value_size_of(page_type)
}

pub open spec fn count_of(s: Seq<u8>) -> int {
    u16_at(s, 2)
}

/// Where entry `i` begins.
pub open spec fn entry_start(s: Seq<u8>, i: int) -> int {
    HEADER_SIZE + count_of(s) * OFFSET_ENTRY_SIZE + u16_at(s, HEADER_SIZE + i * OFFSET_ENTRY_SIZE)
}

pub open spec fn key_of(s: Seq<u8>, i: int) -> Seq<u8> {
    s.subrange(entry_start(s, i), entry_start(s, i) + KEY_SIZE)
}

pub open spec fn val_of(s: Seq<u8>, i: int) -> Seq<u8> {
    s.subrange(
        entry_start(s, i) + KEY_SIZE,
        entry_start(s, i) + KEY_SIZE + value_size_of(s[0]),
    )
}

pub open spec fn high_of(s: Seq<u8>) -> Option<Seq<u8>> {
    if s[28] != 0 {
        Some(s.subrange(29, 45))
    } else {
        None
    }
}

/// The contents of a page.
pub open spec fn node_of(s: Seq<u8>) -> NodeModel {
    NodeModel {
        page_type: s[0],
        level: s[1],
        prev_leaf: link_of(u64_at(s, 4)),
        next_leaf: link_of(u64_at(s, 12)),
        left_child: u64_at(s, 20) as u64,
        high_key: high_of(s),
        entries: Seq::new(count_of(s) as nat, |i: int| (key_of(s, i), val_of(s, i))),
    }
}

/// If the page has an entry `i`, its place in the offset table lies inside the page.
pub open spec fn offset_inside(s: Seq<u8>, i: int) -> bool {
    i < count_of(s) ==> HEADER_SIZE + (i + 1) * OFFSET_ENTRY_SIZE <= PAGE_SIZE
}

/// The offset table of the page lies inside it.
pub open spec fn table_fits(s: Seq<u8>) -> bool {
    s.len() == PAGE_SIZE && HEADER_SIZE + count_of(s) * OFFSET_ENTRY_SIZE <= PAGE_SIZE
}

/// Entries lie one after the other from the end of the offset table on, inside the page.
pub open spec fn canonical(s: Seq<u8>) -> bool {
    &&& s.len() == PAGE_SIZE
    &&& HEADER_SIZE + count_of(s) * (OFFSET_ENTRY_SIZE + entry_size_of(s[0])) <= PAGE_SIZE
    &&& forall|i: int|
        0 <= i < count_of(s) ==> #[trigger] u16_at(s, HEADER_SIZE + i * OFFSET_ENTRY_SIZE) == i
            * entry_size_of(s[0])
}

/// The entries as byte strings.
pub open spec fn entries_view(v: Seq<Entry>) -> Seq<(Seq<u8>, Seq<u8>)> {
    Seq::new(v.len(), |i: int| (v[i].0@, v[i].1@))
}

/// Whether the entries have the sizes of the page type and fit a page.
pub open spec fn encodable(e: Seq<(Seq<u8>, Seq<u8>)>, page_type: u8) -> bool {
    &&& entries_sized(e, page_type)
    &&& HEADER_SIZE + e.len() * (OFFSET_ENTRY_SIZE + entry_size_of(page_type)) <= PAGE_SIZE
}

pub open spec fn entries_sized(e: Seq<(Seq<u8>, Seq<u8>)>, page_type: u8) -> bool {
    forall|i: int|
        0 <= i < e.len() ==> is_key((#[trigger] e[i]).0) && e[i].1.len() == value_size_of(page_type)
}

/// The error of the first entry that has a wrong size or finds no room, entry `i`.
pub open spec fn entry_error(
    e: Seq<(Seq<u8>, Seq<u8>)>,
    page_type: u8,
    i: int,
    err: Error,
) -> bool {
    let unit = KEY_SIZE + value_size_of(page_type);
    let at = HEADER_SIZE + OFFSET_ENTRY_SIZE * e.len() + i * unit;
    &&& 0 <= i < e.len()
    &&& forall|j: int|
        0 <= j < i ==> is_key((#[trigger] e[j]).0) && e[j].1.len() == value_size_of(page_type)
    &&& i > 0 ==> at <= PAGE_SIZE
    &&& if !is_key(e[i].0) {
        err matches Error::InvalidKeySize(a, b) && a == e[i].0.len() && b == KEY_SIZE
    } else if e[i].1.len() != value_size_of(page_type) {
        err matches Error::InvalidValueSize(a, b) && a == e[i].1.len() && b == value_size_of(
            page_type,
        )
    } else {
        at + unit > PAGE_SIZE && (err matches Error::InvalidPageSize(a, b) && a == at && b
            == PAGE_SIZE)
    }
}

impl PageHeader {
    pub open spec fn high_view(self) -> Option<Seq<u8>> {
        match self.high_key {
            Some(k) => Some(k@),
            None => None,
        }
    }

    /// The header is that of a page with contents `m`, up to the key count.
    pub open spec fn describes(self, m: NodeModel) -> bool {
        &&& self.page_type == m.page_type
        &&& self.level == m.level
        &&& self.prev_leaf == m.prev_leaf
        &&& self.next_leaf == m.next_leaf
        &&& self.left_child == m.left_child
        &&& self.high_view() == m.high_key
    }

    /// Stored links are not zero.
    pub open spec fn links_ok(self) -> bool {
        self.prev_leaf != Some(0u64) && self.next_leaf != Some(0u64)
    }
}

/// The contents of a page with this header and these entries.
pub open spec fn model_with(h: PageHeader, e: Seq<(Seq<u8>, Seq<u8>)>) -> NodeModel {
    NodeModel {
        page_type: h.page_type,
        level: h.level,
        prev_leaf: h.prev_leaf,
        next_leaf: h.next_leaf,
        left_child: h.left_child,
        high_key: h.high_view(),
        entries: e,
    }
}

pub proof fn lemma_canonical_bounds(s: Seq<u8>, i: int)
    requires
        canonical(s),
        0 <= i < count_of(s),
    ensures
        table_fits(s),
        entry_start(s, i) == HEADER_SIZE + count_of(s) * OFFSET_ENTRY_SIZE + i * entry_size_of(s[0]),
        HEADER_SIZE + count_of(s) * OFFSET_ENTRY_SIZE <= entry_start(s, i),
        entry_start(s, i) + entry_size_of(s[0]) <= PAGE_SIZE,
        is_key(key_of(s, i)),
        val_of(s, i).len() == value_size_of(s[0]),
{
    let n = count_of(s);
    let u = entry_size_of(s[0]);
    assert(u16_at(s, HEADER_SIZE + i * OFFSET_ENTRY_SIZE) == i * u);
    assert(i * u >= 0 && (i + 1) * u <= n * u && (i + 1) * u == i * u + u && n * (2 + u) == 2 * n + n * u)
        by (nonlinear_arith)
        requires
            0 <= i < n,
            u >= 0,
    ;
}

pub proof fn lemma_canonical_table(s: Seq<u8>)
    requires
        canonical(s),
    ensures
        table_fits(s),
        entries_sized(node_of(s).entries, s[0]),
        encodable(node_of(s).entries, s[0]),
{
    let n = count_of(s);
    let u = entry_size_of(s[0]);
    assert(n * (2 + u) == 2 * n + n * u && n * u >= 0) by (nonlinear_arith)
        requires
            0 <= n,
            u >= 0,
    ;
    let m = node_of(s);
    assert forall|i: int| 0 <= i < m.entries.len() implies is_key((#[trigger] m.entries[i]).0)
        && m.entries[i].1.len() == value_size_of(s[0]) by {
        lemma_canonical_bounds(s, i);
    }
}

/// Reads the header of a page.
pub fn page_header(page: &[u8]) -> (r: PageHeader)
    requires
        page@.len() == PAGE_SIZE,
    ensures
        r.describes(node_of(page@)),
        r.key_count == count_of(page@),
        r.links_ok(),
{
    let prev: u64 = get_u64(page, 4);
    let next: u64 = get_u64(page, 12);
    let high_key: Option<[u8; KEY_SIZE]> = if page[28] != 0 {
        key_to_high_key(vstd::slice::slice_subrange(page, 29, 29 + KEY_SIZE))
    } else {
        None
    };
    PageHeader {
        page_type: page[0],
        level: page[1],
        key_count: get_u16(page, 2),
        prev_leaf: if prev == 0 {
            None
        } else {
            Some(prev)
        },
        next_leaf: if next == 0 {
            None
        } else {
            Some(next)
        },
        left_child: get_u64(page, 20),
        high_key,
    }
}

/// The key as a high key, if it has the size of one.
pub fn key_to_high_key(key: &[u8]) -> (r: Option<[u8; KEY_SIZE]>)
    ensures
        match r {
            Some(k) => is_key(key@) && k@ == key@,
            None => !is_key(key@),
        },
{
    if key.len() != KEY_SIZE {
        return None;
    }
    let mut out: [u8; KEY_SIZE] = [0u8;KEY_SIZE];
    let mut i: usize = 0;
    while i < KEY_SIZE
        invariant
            i <= KEY_SIZE,
            is_key(key@),
            forall|k: int| 0 <= k < i ==> out@[k] == key@[k],
        decreases KEY_SIZE - i,
    {
        out[i] = key[i];
        i += 1;
    }
    assert(out@ =~= key@);
    Some(out)
}

/// Writes the header; bytes after it stay.
pub fn write_header(page: &mut Vec<u8>, header: PageHeader)
    requires
        old(page)@.len() == PAGE_SIZE,
        header.links_ok(),
    ensures
        final(page)@.len() == PAGE_SIZE,
        header.describes(node_of(final(page)@)),
        count_of(final(page)@) == header.key_count,
        forall|i: int| HEADER_SIZE <= i < PAGE_SIZE ==> final(page)@[i] == old(page)@[i],
{
    let ghost s0 = page@;
    page[0] = header.page_type;
    page[1] = header.level;
    set_u16(page, 2, header.key_count);
    let prev: u64 = match header.prev_leaf {
        Some(v) => v,
        None => 0,
    };
    set_u64(page, 4, prev);
    let next: u64 = match header.next_leaf {
        Some(v) => v,
        None => 0,
    };
    set_u64(page, 12, next);
    set_u64(page, 20, header.left_child);
    match header.high_key {
        Some(hk) => {
            page[28] = 1;
            set_bytes(page, 29, &hk);
            proof {
                assert(page@.subrange(29, 45) =~= hk@);
            }
        },
        None => {
            page[28] = 0;
            fill_zero(page, 29, KEY_SIZE);
        },
    }
    fill_zero(page, 29 + KEY_SIZE, HEADER_SIZE - 29 - KEY_SIZE);
    proof {
        let s = page@;
        if header.high_key is Some {
            assert(s.subrange(29, 45) =~= header.high_key->Some_0@);
        }
        assert(u16_at(s, 2) == header.key_count);
        assert(u64_at(s, 4) == prev);
        assert(u64_at(s, 12) == next);
        assert(u64_at(s, 20) == header.left_child);
    }
}

/// A page without entries.
pub fn new_page(page_type: u8, level: u8) -> (r: Page)
    ensures
        bytes_view(r).len() == PAGE_SIZE,
        canonical(bytes_view(r)),
        node_of(bytes_view(r)) == (NodeModel {
            page_type,
            level,
            prev_leaf: None,
            next_leaf: None,
            left_child: 0,
            high_key: None,
            entries: Seq::empty(),
        }),
{
    page_from_vec(new_page_buf(page_type, level))
}

/// The bytes of a page without entries.
pub fn new_page_buf(page_type: u8, level: u8) -> (r: Vec<u8>)
    ensures
        canonical(r@),
        node_of(r@) == (NodeModel {
            page_type,
            level,
            prev_leaf: None,
            next_leaf: None,
            left_child: 0,
            high_key: None,
            entries: Seq::empty(),
        }),
{
    let mut page: Vec<u8> = zeroed(PAGE_SIZE);
    let header = PageHeader {
        page_type,
        level,
        key_count: 0,
        prev_leaf: None,
        next_leaf: None,
        left_child: 0,
        high_key: None,
    };
    write_header(&mut page, header);
    assert(node_of(page@).entries =~= Seq::empty());
    page
}

/// Payload bytes of an entry of the given page type.
pub fn entry_value_size(page_type: u8) -> (r: usize)
    ensures
        r == value_size_of(page_type),
{
    if page_type == PAGE_TYPE_LEAF {
        LEAF_VALUE_SIZE
    } else if page_type == PAGE_TYPE_INTERNAL {
        CHILD_ID_SIZE
    } else {
        0
    }
}

/// Bytes of an entry of the given page type.
pub fn entry_size(page_type: u8) -> (r: usize)
    ensures
        r == entry_size_of(page_type),
{
    KEY_SIZE + entry_value_size(page_type)
}

/// Where the entries begin on a page with this many keys.
pub fn data_start(key_count: u16) -> (r: usize)
    ensures
        r == HEADER_SIZE + key_count * OFFSET_ENTRY_SIZE,
{
    HEADER_SIZE + key_count as usize * OFFSET_ENTRY_SIZE
}

/// The key of entry `index`, unless there is no such entry or its key leaves the page.
pub fn entry_key_at(page: &[u8], index: usize) -> (r: Option<&[u8]>)
    requires
        page@.len() == PAGE_SIZE,
        offset_inside(page@, index as int),
    ensures
        match r {
            Some(k) => index < count_of(page@) && entry_start(page@, index as int) + KEY_SIZE
                <= PAGE_SIZE && k@ == key_of(page@, index as int),
            None => index >= count_of(page@) || entry_start(page@, index as int) + KEY_SIZE
                > PAGE_SIZE,
        },
{
    match entry_offset_at(page, index) {
        Some(o) => Some(vstd::slice::slice_subrange(page, o, o + KEY_SIZE)),
        None => None,
    }
}

/// Where the payload of entry `index` begins and ends.
pub fn entry_value_bounds(page: &[u8], index: usize) -> (r: Option<(usize, usize)>)
    requires
        page@.len() == PAGE_SIZE,
        offset_inside(page@, index as int),
    ensures
        match r {
            Some(b) => index < count_of(page@) && b.0 == entry_start(page@, index as int) + KEY_SIZE
                && b.1 == b.0 + value_size_of(page@[0]) && b.1 <= PAGE_SIZE,
            None => index >= count_of(page@) || entry_start(page@, index as int) + KEY_SIZE
                + value_size_of(page@[0]) > PAGE_SIZE,
        },
{
    let key_count: u16 = get_u16(page, 2);
    if index >= key_count as usize {
        return None;
    }
    let start: usize = data_start(key_count);
    let rel: usize = get_u16(page, HEADER_SIZE + index * OFFSET_ENTRY_SIZE) as usize;
    let key_end: usize = start + rel + KEY_SIZE;
    let value_end: usize = key_end + entry_value_size(page[0]);
    if value_end > PAGE_SIZE {
        return None;
    }
    Some((key_end, value_end))
}

/// The payload of entry `index`, unless there is no such entry or it leaves the page.
pub fn entry_value_at(page: &[u8], index: usize) -> (r: Option<&[u8]>)
    requires
        page@.len() == PAGE_SIZE,
        offset_inside(page@, index as int),
    ensures
        match r {
            Some(v) => index < count_of(page@) && entry_start(page@, index as int) + KEY_SIZE
                + value_size_of(page@[0]) <= PAGE_SIZE && v@ == val_of(page@, index as int),
            None => index >= count_of(page@) || entry_start(page@, index as int) + KEY_SIZE
                + value_size_of(page@[0]) > PAGE_SIZE,
        },
{
    match entry_value_bounds(page, index) {
        Some(b) => Some(vstd::slice::slice_subrange(page, b.0, b.1)),
        None => None,
    }
}

/// Where entry `index` begins, unless there is no such entry or its key leaves the page.
pub fn entry_offset_at(page: &[u8], index: usize) -> (r: Option<usize>)
    requires
        page@.len() == PAGE_SIZE,
        offset_inside(page@, index as int),
    ensures
        match r {
            Some(o) => index < count_of(page@) && o == entry_start(page@, index as int) && o
                + KEY_SIZE <= PAGE_SIZE,
            None => index >= count_of(page@) || entry_start(page@, index as int) + KEY_SIZE
                > PAGE_SIZE,
        },
{
    let key_count: u16 = get_u16(page, 2);
    if index >= key_count as usize {
        return None;
    }
    let start: usize = data_start(key_count);
    let rel: usize = get_u16(page, HEADER_SIZE + index * OFFSET_ENTRY_SIZE) as usize;
    let entry_offset: usize = start + rel;
    if entry_offset + KEY_SIZE > PAGE_SIZE {
        return None;
    }
    Some(entry_offset)
}

/// Whether entry `i` lies inside the page.
pub open spec fn entry_inside(s: Seq<u8>, i: int) -> bool {
    entry_start(s, i) + KEY_SIZE + value_size_of(s[0]) <= PAGE_SIZE
}

/// The entries of the page in order, up to the first that leaves the page.
pub fn collect_entries(page: &[u8]) -> (r: Vec<Entry>)
    requires
        page@.len() == PAGE_SIZE,
    ensures
        r@.len() <= count_of(page@),
        entries_view(r@) == node_of(page@).entries.take(r@.len() as int),
        forall|i: int| 0 <= i < r@.len() ==> #[trigger] entry_inside(page@, i),
        r@.len() < count_of(page@) ==> !entry_inside(page@, r@.len() as int),
        canonical(page@) ==> entries_view(r@) == node_of(page@).entries,
{
    let count: usize = get_u16(page, 2) as usize;
    let mut entries: Vec<Entry> = Vec::new();
    let mut index: usize = 0;
    while index < count
        invariant_except_break
            entries@.len() == index,
        invariant
            page@.len() == PAGE_SIZE,
            count == count_of(page@),
            index <= count,
            entries@.len() <= count,
            entries_view(entries@) =~= node_of(page@).entries.take(entries@.len() as int),
            forall|i: int| 0 <= i < entries@.len() ==> #[trigger] entry_inside(page@, i),
        ensures
            entries@.len() < count ==> !entry_inside(page@, entries@.len() as int),
        decreases count - index,
    {
        proof {
            if index > 0 {
                assert(entry_inside(page@, 0));
            }
        }
        let key = match entry_key_at(page, index) {
            Some(k) => copy_bytes(k),
            None => {
                break;
            },
        };
        let value = match entry_value_at(page, index) {
            Some(v) => copy_bytes(v),
            None => {
                break;
            },
        };
        entries.push((key, value));
        index += 1;
        assert(entry_inside(page@, index - 1));
    }
    proof {
        if canonical(page@) {
            if entries@.len() < count {
                lemma_canonical_bounds(page@, entries@.len() as int);
            }
            assert(node_of(page@).entries.take(count as int) =~= node_of(page@).entries);
        }
    }
    entries
}

/// The keys of a page as numbers.
pub open spec fn key_nums(e: Seq<(Seq<u8>, Seq<u8>)>) -> Seq<int> {
    Seq::new(e.len(), |i: int| be_num(e[i].0))
}

pub open spec fn ascending(k: Seq<int>) -> bool {
    forall|i: int, j: int| 0 <= i < j < k.len() ==> #[trigger] k[i] < #[trigger] k[j]
}

/// The first position whose key is not below `x`.
pub open spec fn is_lower_bound(k: Seq<int>, x: int, pos: int) -> bool {
    &&& 0 <= pos <= k.len()
    &&& forall|i: int| 0 <= i < pos ==> #[trigger] k[i] < x
    &&& forall|i: int| pos <= i < k.len() ==> x <= #[trigger] k[i]
}

/// The number of keys not above `x`.
pub open spec fn is_upper_bound(k: Seq<int>, x: int, pos: int) -> bool {
    &&& 0 <= pos <= k.len()
    &&& forall|i: int| 0 <= i < pos ==> #[trigger] k[i] <= x
    &&& forall|i: int| pos <= i < k.len() ==> x < #[trigger] k[i]
}

/// Looks `key` up among the ascending keys of the page: whether it is there,
/// and its place or the place where it would go.
pub fn find_key_pos(page: &[u8], key: &[u8]) -> (r: Option<(bool, usize)>)
    requires
        canonical(page@),
        is_key(key@),
        ascending(key_nums(node_of(page@).entries)),
    ensures
        r is Some,
        is_lower_bound(key_nums(node_of(page@).entries), be_num(key@), r->Some_0.1 as int),
        r->Some_0.0 <==> (r->Some_0.1 < count_of(page@) && node_of(page@).entries[r->Some_0.1 as int].0
            == key@),
{
    let ghost e = node_of(page@).entries;
    let ghost ks = key_nums(e);
    let ghost x = be_num(key@);
    proof {
        lemma_canonical_table(page@);
    }
    let mut lo: usize = 0;
    let mut hi: usize = get_u16(page, 2) as usize;
    while lo < hi
        invariant
            canonical(page@),
            table_fits(page@),
            is_key(key@),
            e == node_of(page@).entries,
            ks == key_nums(e),
            x == be_num(key@),
            ascending(ks),
            lo <= hi <= ks.len(),
            ks.len() == count_of(page@),
            forall|i: int| 0 <= i < lo ==> #[trigger] ks[i] < x,
            forall|i: int| hi <= i < ks.len() ==> x < #[trigger] ks[i],
        decreases hi - lo,
    {
        let mid: usize = (lo + hi) / 2;
        proof {
            lemma_canonical_bounds(page@, mid as int);
        }
        match entry_key_at(page, mid) {
            None => {
                return None;
            },
            Some(mid_key) => {
                proof {
                    assert(e[mid as int].0 == mid_key@);
                    assert(ks[mid as int] == be_num(mid_key@));
                    lemma_lex_is_num_order(mid_key@, key@);
                }
                if bytes_eq(mid_key, key) {
                    return Some((true, mid));
                }
                if bytes_lt(mid_key, key) {
                    lo = mid + 1;
                } else {
                    hi = mid;
                }
            },
        }
    }
    proof {
        if lo < e.len() && e[lo as int].0 == key@ {
            assert(ks[lo as int] == x);
        }
    }
    Some((false, lo))
}

/// The first place whose key is not below `key`, which may have any length.
pub fn lower_bound_in_leaf(page: &[u8], key: &[u8]) -> (r: usize)
    requires
        canonical(page@),
        ascending(key_nums(node_of(page@).entries)),
    ensures
        r <= count_of(page@),
        forall|i: int| 0 <= i < r ==> lex_lt(#[trigger] node_of(page@).entries[i].0, key@),
        forall|i: int|
            r <= i < count_of(page@) ==> !lex_lt(#[trigger] node_of(page@).entries[i].0, key@),
{
    let ghost e = node_of(page@).entries;
    let ghost ks = key_nums(e);
    proof {
        lemma_canonical_table(page@);
    }
    let mut lo: usize = 0;
    let mut hi: usize = get_u16(page, 2) as usize;
    while lo < hi
        invariant
            canonical(page@),
            table_fits(page@),
            e == node_of(page@).entries,
            ks == key_nums(e),
            ascending(ks),
            entries_sized(e, page@[0]),
            lo <= hi <= ks.len(),
            ks.len() == count_of(page@),
            ks.len() == e.len(),
            forall|i: int| 0 <= i < lo ==> lex_lt(#[trigger] e[i].0, key@),
            forall|i: int| hi <= i < e.len() ==> !lex_lt(#[trigger] e[i].0, key@),
        decreases hi - lo,
    {
        let mid: usize = (lo + hi) / 2;
        proof {
            lemma_canonical_bounds(page@, mid as int);
        }
        match entry_key_at(page, mid) {
            None => {
                return lo;
            },
            Some(mid_key) => {
                let less: bool = bytes_lt(mid_key, key);
                proof {
                    assert(e[mid as int].0 == mid_key@);
                    assert forall|i: int| 0 <= i < e.len() implies (i < mid && less ==> lex_lt(
                        #[trigger] e[i].0,
                        key@,
                    )) && (i > mid && !less ==> !lex_lt(e[i].0, key@)) by {
                        assert(ks[i] == be_num(e[i].0));
                        assert(ks[mid as int] == be_num(e[mid as int].0));
                        lemma_lex_is_num_order(e[i].0, e[mid as int].0);
                        lemma_lex_is_num_order(e[mid as int].0, e[i].0);
                        if i < mid && less {
                            assert(ks[i] < ks[mid as int]);
                            crate::key_order::lemma_lex_transitive(e[i].0, mid_key@, key@);
                        }
                        if i > mid && !less && lex_lt(e[i].0, key@) {
                            assert(ks[mid as int] < ks[i]);
                            crate::key_order::lemma_lex_transitive(mid_key@, e[i].0, key@);
                        }
                    }
                }
                if less {
                    lo = mid + 1;
                } else {
                    hi = mid;
                }
            },
        }
    }
    lo
}

/// The child that `key` belongs to: the number of separators not above it.
pub fn child_insert_pos_for_key(page: &[u8], key: &[u8]) -> (r: usize)
    requires
        canonical(page@),
        ascending(key_nums(node_of(page@).entries)),
    ensures
        is_upper_bound(key_nums(node_of(page@).entries), route_num(key@), r as int),
        is_key(key@) ==> is_upper_bound(
            key_nums(node_of(page@).entries),
            be_num(key@),
            r as int,
        ),
{
    let ghost e = node_of(page@).entries;
    let ghost ks = key_nums(e);
    let ghost x = route_num(key@);
    proof {
        lemma_canonical_table(page@);
    }
    let mut lo: usize = 0;
    let mut hi: usize = get_u16(page, 2) as usize;
    while lo < hi
        invariant
            canonical(page@),
            table_fits(page@),
            e == node_of(page@).entries,
            ks == key_nums(e),
            x == route_num(key@),
            ascending(ks),
            lo <= hi <= ks.len(),
            ks.len() == count_of(page@),
            forall|i: int| 0 <= i < lo ==> #[trigger] ks[i] <= x,
            forall|i: int| hi <= i < ks.len() ==> x < #[trigger] ks[i],
        decreases hi - lo,
    {
        let mid: usize = (lo + hi) / 2;
        proof {
            lemma_canonical_bounds(page@, mid as int);
        }
        match entry_key_at(page, mid) {
            None => {
                return lo;
            },
            Some(mid_key) => {
                proof {
                    assert(e[mid as int].0 == mid_key@);
                    assert(ks[mid as int] == be_num(mid_key@));
                    lemma_route_num(key@, mid_key@);
                }
                if bytes_lt(key, mid_key) {
                    hi = mid;
                } else {
                    lo = mid + 1;
                }
            },
        }
    }
    proof {
        lemma_route_num(key@, Seq::new(KEY_SIZE as nat, |i: int| 0u8));
    }
    lo
}

/// The child ids of an internal page, left to right.
pub open spec fn child_of(m: NodeModel, pos: int) -> int {
    if pos == 0 {
        m.left_child as int
    } else {
        u64_at(m.entries[pos - 1].1, 0)
    }
}

/// The child at `pos`.
pub fn child_id_at_pos(page: &[u8], pos: usize) -> (r: PageId)
    requires
        canonical(page@),
        page@[0] == PAGE_TYPE_INTERNAL,
        pos <= count_of(page@),
    ensures
        r == child_of(node_of(page@), pos as int),
{
    if pos == 0 {
        return get_u64(page, 20);
    }
    proof {
        lemma_canonical_bounds(page@, pos - 1);
    }
    match entry_value_at(page, pos - 1) {
        Some(v) => decode_child_id(v),
        None => get_u64(page, 20),
    }
}

/// A child id as an entry payload.
pub fn encode_child_id(child: PageId) -> (r: Vec<u8>)
    ensures
        r@ == le8(child as int),
        r@.len() == CHILD_ID_SIZE,
        u64_at(r@, 0) == child,
{
    let mut r: Vec<u8> = Vec::new();
    push_u64(&mut r, child);
    proof {
        lemma_le8(child as int);
        assert(r@ =~= le8(child as int));
    }
    r
}

/// The child id in an entry payload.
pub fn decode_child_id(buf: &[u8]) -> (r: PageId)
    requires
        buf@.len() >= CHILD_ID_SIZE,
    ensures
        r == u64_at(buf@, 0),
{
    get_u64(buf, 0)
}

/// Whether one more entry fits.
pub fn page_has_room_for_one_more(header: PageHeader) -> (r: bool)
    ensures
        r == (HEADER_SIZE + (header.key_count + 1) * (OFFSET_ENTRY_SIZE + entry_size_of(
            header.page_type,
        )) <= PAGE_SIZE),
{
    let total: usize = header.key_count as usize + 1;
    let size: usize = entry_size(header.page_type);
    assert(total * OFFSET_ENTRY_SIZE + total * size == total * (OFFSET_ENTRY_SIZE + size) && total
        * size <= 65536 * 1076) by (nonlinear_arith)
        requires
            total <= 65536,
            size <= 1076,
            OFFSET_ENTRY_SIZE == 2,
    ;
    HEADER_SIZE + total * OFFSET_ENTRY_SIZE + total * size <= PAGE_SIZE
}

pub fn page_is_full_for_insert(header: PageHeader) -> (r: bool)
    ensures
        r == (HEADER_SIZE + (header.key_count + 1) * (OFFSET_ENTRY_SIZE + entry_size_of(
            header.page_type,
        )) > PAGE_SIZE),
{
    !page_has_room_for_one_more(header)
}

/// How many entries fit a page of the given type.
pub open spec fn max_keys_of(page_type: u8) -> int {
    (PAGE_SIZE - HEADER_SIZE) / (OFFSET_ENTRY_SIZE + entry_size_of(page_type))
}

pub fn max_keys_for_page_type(page_type: u8) -> (r: usize)
    ensures
        r == max_keys_of(page_type),
{
    let unit: usize = OFFSET_ENTRY_SIZE + entry_size(page_type);
    (PAGE_SIZE - HEADER_SIZE) / unit
}

/// Half of what fits; a child with no more than this is rebalanced before a
/// delete descends into it.
pub fn min_keys_non_root(page_type: u8) -> (r: usize)
    ensures
        r == max_keys_of(page_type) / 2,
{
    let max: usize = max_keys_for_page_type(page_type);
    max / 2
}

proof fn lemma_splice_elsewhere(s: Seq<u8>, o: int, t: Seq<u8>, a: int, b: int)
    requires
        0 <= a <= b <= s.len(),
        0 <= o,
        o + t.len() <= s.len(),
        b <= o || o + t.len() <= a,
    ensures
        splice(s, o, t).subrange(a, b) == s.subrange(a, b),
{
    assert(splice(s, o, t).subrange(a, b) =~= s.subrange(a, b));
}

proof fn lemma_splice_here(s: Seq<u8>, o: int, t: Seq<u8>)
    requires
        0 <= o,
        o + t.len() <= s.len(),
    ensures
        splice(s, o, t).subrange(o, o + t.len()) == t,
{
    assert(splice(s, o, t).subrange(o, o + t.len()) =~= t);
}

proof fn lemma_spread(i: int, j: int, u: int)
    by (nonlinear_arith)
    requires
        0 <= i < j,
        0 <= u,
    ensures
        0 <= i * u,
        i * u + u <= j * u,
        (i + 1) * u == i * u + u,
{
}

/// Writes the entries and the header, with their number as the key count.
/// Bytes after the last entry stay.
pub fn encode_entries(page: &mut Vec<u8>, entries: &Vec<Entry>, header: PageHeader) -> (r: Result<
    (),
>)
    requires
        old(page)@.len() == PAGE_SIZE,
        header.links_ok(),
        entries@.len() <= 0xffff,
    ensures
        final(page)@.len() == PAGE_SIZE,
        r is Ok <==> encodable(entries_view(entries@), header.page_type),
        r is Ok ==> canonical(final(page)@) && node_of(final(page)@) == model_with(
            header,
            entries_view(entries@),
        ),
        r matches Err(e) ==> exists|i: int| #[trigger]
            entry_error(entries_view(entries@), header.page_type, i, e),
{
    let ghost ev = entries_view(entries@);
    let value_size: usize = entry_value_size(header.page_type);
    let n: usize = entries.len();
    let start: usize = data_start(n as u16);
    let unit: usize = KEY_SIZE + value_size;
    let mut cursor: usize = start;
    let mut index: usize = 0;
    while index < n
        invariant
            page@.len() == PAGE_SIZE,
            n == entries@.len(),
            n <= 0xffff,
            ev == entries_view(entries@),
            value_size == value_size_of(header.page_type),
            unit == KEY_SIZE + value_size,
            index <= n,
            start == HEADER_SIZE + 2 * n,
            cursor == start + index * unit,
            index > 0 ==> cursor <= PAGE_SIZE,
            forall|j: int|
                0 <= j < index ==> is_key((#[trigger] ev[j]).0) && ev[j].1.len() == value_size,
            forall|j: int|
                0 <= j < index ==> #[trigger] u16_at(page@, HEADER_SIZE + j * OFFSET_ENTRY_SIZE)
                    == j * unit,
            forall|j: int|
                0 <= j < index ==> page@.subrange(start + j * unit, start + j * unit + KEY_SIZE)
                    == (#[trigger] ev[j]).0,
            forall|j: int|
                0 <= j < index ==> page@.subrange(
                    start + j * unit + KEY_SIZE,
                    start + j * unit + unit,
                ) == (#[trigger] ev[j]).1,
        decreases n - index,
    {
        let ghost s0 = page@;
        let k = &entries[index].0;
        let v = &entries[index].1;
        assert(ev[index as int].0 == k@ && ev[index as int].1 == v@);
        if k.len() != KEY_SIZE {
            let e = Error::InvalidKeySize(k.len(), KEY_SIZE);
            assert(entry_error(ev, header.page_type, index as int, e));
            return Err(e);
        }
        if v.len() != value_size {
            let e = Error::InvalidValueSize(v.len(), value_size);
            assert(entry_error(ev, header.page_type, index as int, e));
            return Err(e);
        }
        if cursor + KEY_SIZE + value_size > PAGE_SIZE {
            let e = Error::InvalidPageSize(cursor, PAGE_SIZE);
            proof {
                assert(entry_error(ev, header.page_type, index as int, e));
                if entries_sized(ev, header.page_type) {
                    lemma_spread(index as int, n as int, unit as int);
                    assert(n * (2 + unit) == 2 * n + n * unit) by (nonlinear_arith);
                    assert(!encodable(ev, header.page_type));
                }
            }
            return Err(e);
        }
        proof {
            lemma_spread(index as int, index + 1, unit as int);
            assert(index * 16 <= index * unit) by (nonlinear_arith)
                requires
                    unit >= 16,
            ;
        }
        set_u16(page, HEADER_SIZE + index * OFFSET_ENTRY_SIZE, (cursor - start) as u16);
        let ghost s1 = page@;
        set_bytes(page, cursor, k.as_slice());
        let ghost s2 = page@;
        cursor = cursor + KEY_SIZE;
        set_bytes(page, cursor, v.as_slice());
        let ghost s3 = page@;
        cursor = cursor + value_size;
        proof {
            let off = HEADER_SIZE + index * OFFSET_ENTRY_SIZE;
            let c = start + index * unit;
            lemma_splice_here(s1, c, k@);
            lemma_splice_elsewhere(s2, c + KEY_SIZE, v@, c, c + KEY_SIZE);
            lemma_splice_here(s2, c + KEY_SIZE, v@);
            assert forall|j: int| 0 <= j < index + 1 implies #[trigger] u16_at(
                s3,
                HEADER_SIZE + j * OFFSET_ENTRY_SIZE,
            ) == j * unit by {
                if j < index {
                    assert(u16_at(s0, HEADER_SIZE + j * OFFSET_ENTRY_SIZE) == j * unit);
                }
            }
            assert forall|j: int| 0 <= j < index implies s3.subrange(
                start + j * unit,
                start + j * unit + KEY_SIZE,
            ) == (#[trigger] ev[j]).0 && s3.subrange(
                start + j * unit + KEY_SIZE,
                start + j * unit + unit,
            ) == ev[j].1 by {
                lemma_spread(j, index as int, unit as int);
                let a = start + j * unit;
                lemma_splice_elsewhere(s0, off, le2((c - start) as int), a, a + KEY_SIZE);
                lemma_splice_elsewhere(s1, c, k@, a, a + KEY_SIZE);
                lemma_splice_elsewhere(s2, c + KEY_SIZE, v@, a, a + KEY_SIZE);
                lemma_splice_elsewhere(s0, off, le2((c - start) as int), a + KEY_SIZE, a + unit);
                lemma_splice_elsewhere(s1, c, k@, a + KEY_SIZE, a + unit);
                lemma_splice_elsewhere(s2, c + KEY_SIZE, v@, a + KEY_SIZE, a + unit);
            }
        }
        index += 1;
    }
    let ghost s4 = page@;
    proof {
        assert(n * (2 + unit) == 2 * n + n * unit && n * 16 <= n * unit) by (nonlinear_arith)
            requires
                unit >= 16,
        ;
    }
    let mut h = header;
    h.key_count = n as u16;
    write_header(page, h);
    proof {
        let s5 = page@;
        assert(count_of(s5) == n);
        assert forall|i: int| 0 <= i < n implies #[trigger] u16_at(
            s5,
            HEADER_SIZE + i * OFFSET_ENTRY_SIZE,
        ) == i * unit by {
            assert(u16_at(s4, HEADER_SIZE + i * OFFSET_ENTRY_SIZE) == i * unit);
        }
        assert forall|i: int| 0 <= i < n implies (#[trigger] key_of(s5, i)) == ev[i].0 && val_of(
            s5,
            i,
        ) == ev[i].1 by {
            lemma_spread(i, n as int, unit as int);
            assert(u16_at(s5, HEADER_SIZE + i * OFFSET_ENTRY_SIZE) == i * unit);
            assert(entry_start(s5, i) == start + i * unit);
            assert(key_of(s5, i) =~= s4.subrange(
                start + i * unit,
                start + i * unit + KEY_SIZE,
            ));
            assert(val_of(s5, i) =~= s4.subrange(
                start + i * unit + KEY_SIZE,
                start + i * unit + unit,
            ));
        }
        assert(node_of(s5).entries =~= ev);
        assert(node_of(s5) =~= model_with(header, ev));
    }
    Ok(())
}

/// The page with `key` and its payload put in at `insert_pos`.
pub fn rebuild_page_with_insert(
    page: &[u8],
    header: PageHeader,
    insert_pos: usize,
    key: &[u8],
    value: &[u8],
) -> (r: Result<Page>)
    requires
        canonical(page@),
        header.describes(node_of(page@)),
        header.links_ok(),
        insert_pos <= count_of(page@),
        is_key(key@),
        value@.len() == value_size_of(page@[0]),
    ensures
        r is Ok <==> HEADER_SIZE + (count_of(page@) + 1) * (OFFSET_ENTRY_SIZE + entry_size_of(
            page@[0],
        )) <= PAGE_SIZE,
        r matches Ok(p) ==> canonical(bytes_view(p)) && node_of(bytes_view(p)) == (NodeModel {
            entries: node_of(page@).entries.insert(insert_pos as int, (key@, value@)),
            ..node_of(page@)
        }),
{
    proof {
        lemma_canonical_table(page@);
    }
    let mut entries = collect_entries(page);
    let ghost e0 = entries@;
    entries.insert(insert_pos, (copy_bytes(key), copy_bytes(value)));
    let mut out = new_page_buf(header.page_type, header.level);
    proof {
        assert(entries_view(entries@) =~= node_of(page@).entries.insert(
            insert_pos as int,
            (key@, value@),
        ));
    }
    let ghost ev = entries_view(entries@);
    proof {
        let e = node_of(page@).entries;
        assert forall|i: int| 0 <= i < ev.len() implies is_key((#[trigger] ev[i]).0)
            && ev[i].1.len() == value_size_of(page@[0]) by {
            if i < insert_pos {
                assert(ev[i] == e[i]);
            } else if i > insert_pos {
                assert(ev[i] == e[i - 1]);
            }
        }
    }
    match encode_entries(&mut out, &entries, header) {
        Ok(_) => Ok(page_from_vec(out)),
        Err(e) => Err(e),
    }
}

/// The page without the entry at `remove_pos`, or a copy when there is no such entry.
pub fn rebuild_page_with_remove(page: &[u8], header: PageHeader, remove_pos: usize) -> (r: Result<
    Page,
>)
    requires
        canonical(page@),
        header.describes(node_of(page@)),
        header.links_ok(),
        header.key_count == count_of(page@),
    ensures
        r is Ok,
        remove_pos >= count_of(page@) ==> bytes_view(r->Ok_0) == page@,
        remove_pos < count_of(page@) ==> canonical(bytes_view(r->Ok_0)) && node_of(
            bytes_view(r->Ok_0),
        ) == (NodeModel {
            entries: node_of(page@).entries.remove(remove_pos as int),
            ..node_of(page@)
        }),
{
    if remove_pos >= header.key_count as usize {
        return Ok(page_from_vec(copy_bytes(page)));
    }
    proof {
        lemma_canonical_table(page@);
    }
    let mut entries = collect_entries(page);
    let _ = entries.remove(remove_pos);
    let mut out = new_page_buf(header.page_type, header.level);
    let ghost ev = entries_view(entries@);
    proof {
        let e = node_of(page@).entries;
        assert(ev =~= e.remove(remove_pos as int));
        assert forall|i: int| 0 <= i < ev.len() implies is_key((#[trigger] ev[i]).0)
            && ev[i].1.len() == value_size_of(page@[0]) by {
            if i < remove_pos {
                assert(ev[i] == e[i]);
            } else {
                assert(ev[i] == e[i + 1]);
            }
        }
        let u = OFFSET_ENTRY_SIZE + entry_size_of(page@[0]);
        assert((e.len() - 1) * u <= e.len() * u) by (nonlinear_arith)
            requires
                u >= 0,
        ;
    }
    match encode_entries(&mut out, &entries, header) {
        Ok(_) => Ok(page_from_vec(out)),
        Err(e) => Err(e),
    }
}

/// Overwrites the payload of the entry at `pos` in place.
pub fn replace_value_at(page: &mut Vec<u8>, pos: usize, value: &[u8])
    requires
        canonical(old(page)@),
        pos < count_of(old(page)@),
        value@.len() == value_size_of(old(page)@[0]),
    ensures
        canonical(final(page)@),
        node_of(final(page)@) == (NodeModel {
            entries: node_of(old(page)@).entries.update(
                pos as int,
                (node_of(old(page)@).entries[pos as int].0, value@),
            ),
            ..node_of(old(page)@)
        }),
{
    let ghost s0 = page@;
    proof {
        lemma_canonical_bounds(s0, pos as int);
    }
    match entry_value_bounds(page.as_slice(), pos) {
        Some(b) => {
            set_bytes(page, b.0, value);
            proof {
                let s = page@;
                let at = entry_start(s0, pos as int) + KEY_SIZE;
                let u = entry_size_of(s0[0]);
                assert(s.subrange(29, 45) =~= s0.subrange(29, 45));
                assert(count_of(s) == count_of(s0));
                assert forall|i: int| 0 <= i < count_of(s) implies #[trigger] u16_at(
                    s,
                    HEADER_SIZE + i * OFFSET_ENTRY_SIZE,
                ) == i * u by {
                    assert(u16_at(s0, HEADER_SIZE + i * OFFSET_ENTRY_SIZE) == i * u);
                }
                let e0 = node_of(s0).entries;
                let e1 = e0.update(pos as int, (e0[pos as int].0, value@));
                assert forall|i: int| 0 <= i < count_of(s) implies node_of(s).entries[i] == e1[i] by {
                    lemma_canonical_bounds(s0, i);
                    lemma_canonical_bounds(s, i);
                    assert(entry_start(s, i) == entry_start(s0, i));
                    let a = entry_start(s0, i);
                    if i < pos {
                        lemma_spread(i, pos as int, u);
                        lemma_splice_elsewhere(s0, at, value@, a, a + KEY_SIZE);
                        lemma_splice_elsewhere(s0, at, value@, a + KEY_SIZE, a + u);
                    } else if i > pos {
                        lemma_spread(pos as int, i, u);
                        lemma_splice_elsewhere(s0, at, value@, a, a + KEY_SIZE);
                        lemma_splice_elsewhere(s0, at, value@, a + KEY_SIZE, a + u);
                    } else {
                        lemma_splice_elsewhere(s0, at, value@, a, a + KEY_SIZE);
                        lemma_splice_here(s0, at, value@);
                    }
                }
                assert(node_of(s).entries =~= e1);
            }
        },
        None => {},
    }
}

/// Splits the entries of a full leaf in two halves. The left page ends below
/// the separator, the first key of the right page, which keeps the high key.
pub fn split_leaf(page: &[u8], entries: Vec<Entry>) -> (r: Result<(Vec<u8>, (Vec<u8>, Vec<u8>))>)
    requires
        canonical(page@),
        page@[0] == PAGE_TYPE_LEAF,
        entries_view(entries@) == node_of(page@).entries,
        entries@.len() >= 2,
    ensures
        r is Ok,
        ({
            let e = node_of(page@).entries;
            let mid = e.len() as int / 2;
            let (sep, (left, right)) = r->Ok_0;
            &&& sep@ == e[mid].0
            &&& canonical(left@)
            &&& canonical(right@)
            &&& node_of(left@) == (NodeModel {
                entries: e.take(mid),
                high_key: Some(sep@),
                ..node_of(page@)
            })
            &&& node_of(right@) == (NodeModel { entries: e.skip(mid), ..node_of(page@) })
        }),
{
    proof {
        lemma_canonical_table(page@);
    }
    let ghost e = node_of(page@).entries;
    let mid: usize = entries.len() / 2;
    let mut left_entries = entries;
    let right_entries = left_entries.split_off(mid);
    let sep = copy_bytes(right_entries[0].0.as_slice());
    let mut left = new_page_buf(PAGE_TYPE_LEAF, 0);
    let mut right = new_page_buf(PAGE_TYPE_LEAF, 0);
    let mut left_header = page_header(page);
    let right_header = page_header(page);
    left_header.high_key = key_to_high_key(sep.as_slice());
    proof {
        assert(entries_view(left_entries@) =~= e.take(mid as int));
        assert(entries_view(right_entries@) =~= e.skip(mid as int));
        lemma_parts_encodable(e, mid as int, mid as int, PAGE_TYPE_LEAF);
        assert(right_entries@[0].0@ == e[mid as int].0);
        assert(is_key(e[mid as int].0));
    }
    match encode_entries(&mut left, &left_entries, left_header) {
        Ok(_) => {},
        Err(e) => {
            return Err(e);
        },
    }
    match encode_entries(&mut right, &right_entries, right_header) {
        Ok(_) => {},
        Err(e) => {
            return Err(e);
        },
    }
    Ok((sep, (left, right)))
}

proof fn lemma_parts_encodable(e: Seq<(Seq<u8>, Seq<u8>)>, a: int, b: int, page_type: u8)
    requires
        encodable(e, page_type),
        0 <= a <= e.len(),
        0 <= b <= e.len(),
    ensures
        encodable(e.take(a), page_type),
        encodable(e.skip(b), page_type),
{
    let u = OFFSET_ENTRY_SIZE + entry_size_of(page_type);
    assert(a * u <= e.len() * u && (e.len() - b) * u <= e.len() * u) by (nonlinear_arith)
        requires
            u >= 0,
            a <= e.len(),
            0 <= b,
    ;
}

/// Splits the entries of a full internal page around the middle one, whose
/// key becomes the separator and whose child the right page's leftmost child.
pub fn split_internal(page: &[u8], entries: Vec<Entry>) -> (r: Result<
    (Vec<u8>, (Vec<u8>, Vec<u8>)),
>)
    requires
        canonical(page@),
        page@[0] == PAGE_TYPE_INTERNAL,
        entries_view(entries@) == node_of(page@).entries,
        entries@.len() >= 2,
    ensures
        r is Ok,
        ({
            let e = node_of(page@).entries;
            let mid = e.len() as int / 2;
            let (sep, (left, right)) = r->Ok_0;
            &&& sep@ == e[mid].0
            &&& canonical(left@)
            &&& canonical(right@)
            &&& node_of(left@) == (NodeModel {
                entries: e.take(mid),
                high_key: Some(sep@),
                ..node_of(page@)
            })
            &&& node_of(right@) == (NodeModel {
                entries: e.skip(mid + 1),
                left_child: u64_at(e[mid].1, 0) as u64,
                ..node_of(page@)
            })
        }),
{
    proof {
        lemma_canonical_table(page@);
    }
    let ghost e = node_of(page@).entries;
    let mid: usize = entries.len() / 2;
    let mut left_entries = entries;
    let right_entries = left_entries.split_off(mid + 1);
    let (separator, mid_child) = left_entries.pop().unwrap();
    proof {
        assert(entries_view(left_entries@) =~= e.take(mid as int));
        assert(entries_view(right_entries@) =~= e.skip(mid + 1));
        lemma_parts_encodable(e, mid as int, mid + 1, PAGE_TYPE_INTERNAL);
        assert(separator@ == e[mid as int].0);
        assert(mid_child@ == e[mid as int].1);
        assert(is_key(e[mid as int].0));
    }
    let mut left_header = page_header(page);
    let mut right_header = page_header(page);
    let mut left = new_page_buf(PAGE_TYPE_INTERNAL, left_header.level);
    let mut right = new_page_buf(PAGE_TYPE_INTERNAL, left_header.level);
    left_header.high_key = key_to_high_key(separator.as_slice());
    right_header.left_child = decode_child_id(mid_child.as_slice());
    match encode_entries(&mut left, &left_entries, left_header) {
        Ok(_) => {},
        Err(e) => {
            return Err(e);
        },
    }
    match encode_entries(&mut right, &right_entries, right_header) {
        Ok(_) => {},
        Err(e) => {
            return Err(e);
        },
    }
    Ok((separator, (left, right)))
}

/// A row as a caller hands it in.
#[derive(Clone, Copy, Debug, PartialEq, Eq)]
pub struct LeafValue {
    pub value: [u8; VALUE_SIZE],
    pub commit_lsn: u64,
    pub undo_ptr: Option<UndoPtr>,
    pub flags: u16,
    pub intent_txn_id: u64,
    pub intent_lsn: u64,
}

/// The version fields of a row.
#[derive(Clone, Copy, Debug, PartialEq, Eq)]
pub struct LeafValueMeta {
    pub commit_lsn: u64,
    pub undo_ptr: Option<UndoPtr>,
    pub flags: u16,
    pub intent_txn_id: u64,
    pub intent_lsn: u64,
}

/// A row as it is read: the value shares the page's memory.
#[derive(Clone, Debug, PartialEq, Eq)]
pub struct LeafValueRef {
    pub meta: LeafValueMeta,
    pub value: Bytes,
}

/// A row: its value and version fields.
#[verifier::ext_equal]
pub struct LeafRow {
    pub value: Seq<u8>,
    pub meta: LeafValueMeta,
}

/// A pointer to page zero is no pointer.
pub open spec fn stored_undo_ptr(p: Option<UndoPtr>) -> Option<UndoPtr> {
    match p {
        Some(u) if u.page_id != 0 => Some(u),
        _ => None,
    }
}

impl LeafValue {
    /// The row that is stored for this value.
    pub open spec fn row(self) -> LeafRow {
        LeafRow {
            value: self.value@,
            meta: LeafValueMeta {
                commit_lsn: self.commit_lsn,
                undo_ptr: stored_undo_ptr(self.undo_ptr),
                flags: self.flags,
                intent_txn_id: self.intent_txn_id,
                intent_lsn: self.intent_lsn,
            },
        }
    }
}

impl LeafValueRef {
    pub open spec fn row(self) -> LeafRow {
        LeafRow { value: bytes_view(self.value), meta: self.meta }
    }
}

/// The version fields in an entry payload.
pub open spec fn meta_of(raw: Seq<u8>) -> LeafValueMeta {
    LeafValueMeta {
        commit_lsn: u64_at(raw, 1024) as u64,
        undo_ptr: if u64_at(raw, 1032) == 0 {
            None
        } else {
            Some(UndoPtr { page_id: u64_at(raw, 1032) as u64, slot_id: u16_at(raw, 1040) as u16 })
        },
        flags: u16_at(raw, 1042) as u16,
        intent_txn_id: u64_at(raw, 1044) as u64,
        intent_lsn: u64_at(raw, 1052) as u64,
    }
}

/// The row in an entry payload.
pub open spec fn row_of(raw: Seq<u8>) -> LeafRow {
    LeafRow { value: raw.subrange(0, VALUE_SIZE as int), meta: meta_of(raw) }
}

/// A row as an entry payload.
pub fn encode_leaf_value(leaf_value: &LeafValue) -> (r: Vec<u8>)
    ensures
        r@.len() == LEAF_VALUE_SIZE,
        row_of(r@) == leaf_value.row(),
{
    let mut buf: Vec<u8> = Vec::new();
    push_bytes(&mut buf, &leaf_value.value);
    push_u64(&mut buf, leaf_value.commit_lsn);
    let (undo_pid, undo_sid): (u64, u16) = match leaf_value.undo_ptr {
        Some(u) => (u.page_id, u.slot_id),
        None => (0, 0),
    };
    push_u64(&mut buf, undo_pid);
    push_u16(&mut buf, undo_sid);
    push_u16(&mut buf, leaf_value.flags);
    push_u64(&mut buf, leaf_value.intent_txn_id);
    push_u64(&mut buf, leaf_value.intent_lsn);
    proof {
        let s = buf@;
        lemma_le8(leaf_value.commit_lsn as int);
        lemma_le8(undo_pid as int);
        lemma_le2(undo_sid as int);
        lemma_le2(leaf_value.flags as int);
        lemma_le8(leaf_value.intent_txn_id as int);
        lemma_le8(leaf_value.intent_lsn as int);
        assert(s.subrange(0, 1024) =~= leaf_value.value@);
        assert(s.subrange(1024, 1032) =~= le8(leaf_value.commit_lsn as int));
        assert(s.subrange(1032, 1040) =~= le8(undo_pid as int));
        assert(s.subrange(1040, 1042) =~= le2(undo_sid as int));
        assert(s.subrange(1042, 1044) =~= le2(leaf_value.flags as int));
        assert(s.subrange(1044, 1052) =~= le8(leaf_value.intent_txn_id as int));
        assert(s.subrange(1052, 1060) =~= le8(leaf_value.intent_lsn as int));
        lemma_field8(s, 1024, leaf_value.commit_lsn as int);
        lemma_field8(s, 1032, undo_pid as int);
        lemma_field2(s, 1040, undo_sid as int);
        lemma_field2(s, 1042, leaf_value.flags as int);
        lemma_field8(s, 1044, leaf_value.intent_txn_id as int);
        lemma_field8(s, 1052, leaf_value.intent_lsn as int);
    }
    buf
}

/// Reads the version fields of an entry payload.
pub fn decode_leaf_value_meta(buf: &[u8]) -> (r: LeafValueMeta)
    requires
        buf@.len() >= LEAF_VALUE_SIZE,
    ensures
        r == meta_of(buf@),
{
    let undo_page_id: u64 = get_u64(buf, VALUE_SIZE + 8);
    let undo_slot_id: u16 = get_u16(buf, VALUE_SIZE + 16);
    LeafValueMeta {
        commit_lsn: get_u64(buf, VALUE_SIZE),
        undo_ptr: if undo_page_id == 0 {
            None
        } else {
            Some(UndoPtr { page_id: undo_page_id, slot_id: undo_slot_id })
        },
        flags: get_u16(buf, VALUE_SIZE + 18),
        intent_txn_id: get_u64(buf, VALUE_SIZE + 20),
        intent_lsn: get_u64(buf, VALUE_SIZE + 28),
    }
}

/// Reads the row whose payload begins at `value_offset`, unless it leaves the page.
pub fn decode_leaf_value_ref(page: &Page, value_offset: usize) -> (r: Option<LeafValueRef>)
    ensures
        match r {
            Some(v) => value_offset + LEAF_VALUE_SIZE <= bytes_view(*page).len() && v.row()
                == row_of(
                bytes_view(*page).subrange(
                    value_offset as int,
                    value_offset + LEAF_VALUE_SIZE,
                ),
            ),
            None => value_offset + LEAF_VALUE_SIZE > bytes_view(*page).len(),
        },
{
    let bytes = page_bytes(page);
    let len: usize = bytes.len();
    let value_end: usize = match value_offset.checked_add(VALUE_SIZE) {
        Some(v) => v,
        None => {
            return None;
        },
    };
    let meta_end: usize = match value_offset.checked_add(LEAF_VALUE_SIZE) {
        Some(v) => v,
        None => {
            return None;
        },
    };
    if meta_end > len || value_end > len {
        return None;
    }
    let raw = vstd::slice::slice_subrange(bytes, value_offset, meta_end);
    let value = page_slice(page, value_offset, value_end);
    assert(bytes_view(value) =~= raw@.subrange(0, VALUE_SIZE as int));
    Some(LeafValueRef { meta: decode_leaf_value_meta(raw), value })
}

/// Looks a row up on a leaf.
pub fn find_in_leaf(page: &Page, key: &[u8]) -> (r: Option<LeafValueRef>)
    requires
        canonical(bytes_view(*page)),
        bytes_view(*page)[0] == PAGE_TYPE_LEAF,
        is_key(key@),
        ascending(key_nums(node_of(bytes_view(*page)).entries)),
    ensures
        match r {
            Some(v) => exists|i: int|
                0 <= i < count_of(bytes_view(*page)) && (#[trigger] node_of(
                    bytes_view(*page),
                ).entries[i]).0 == key@ && v.row() == row_of(
                    node_of(bytes_view(*page)).entries[i].1,
                ),
            None => forall|i: int|
                0 <= i < count_of(bytes_view(*page)) ==> (#[trigger] node_of(
                    bytes_view(*page),
                ).entries[i]).0 != key@,
        },
{
    let bytes = page_bytes(page);
    let ghost e = node_of(bytes@).entries;
    proof {
        lemma_canonical_table(bytes@);
    }
    match find_key_pos(bytes, key) {
        Some((true, pos)) => {
            proof {
                lemma_canonical_bounds(bytes@, pos as int);
            }
            match entry_value_bounds(bytes, pos) {
                Some(b) => {
                    assert(e[pos as int].0 == key@);
                    decode_leaf_value_ref(page, b.0)
                },
                None => None,
            }
        },
        Some((false, pos)) => {
            proof {
                let ks = key_nums(e);
                assert forall|i: int| 0 <= i < e.len() implies (#[trigger] e[i]).0 != key@ by {
                    assert(ks[i] == be_num(e[i].0));
                    if e[i].0 == key@ {
                        assert(ks[i] == be_num(key@));
                        if pos < i {
                            assert(ks[pos as int] < ks[i]);
                            assert(be_num(key@) <= ks[pos as int]);
                        }
                    }
                }
            }
            None
        },
        None => None,
    }
}

/// A stored row says what its value said, field by field; only a pointer to page zero is no
/// pointer.
pub proof fn law_row_is_the_value(v: LeafValue)
    ensures
        v.row().value == v.value@,
        v.row().meta.commit_lsn == v.commit_lsn,
        v.row().meta.flags == v.flags,
        v.row().meta.intent_txn_id == v.intent_txn_id,
        v.row().meta.intent_lsn == v.intent_lsn,
        v.undo_ptr is Some && v.undo_ptr->0.page_id != 0 ==> v.row().meta.undo_ptr == v.undo_ptr,
        v.undo_ptr is None || v.undo_ptr->0.page_id == 0 ==> v.row().meta.undo_ptr is None,
{
}

/// Where an entry of a leaf has its fields: the value in the first 1024 bytes, then the
/// commit LSN, the undo pointer, the flags and whose intent the row is.
pub proof fn law_payload_layout(raw: Seq<u8>)
    requires
        raw.len() == 1060,
    ensures
        row_of(raw).value == raw.subrange(0, 1024),
        row_of(raw).meta.commit_lsn == u64_at(raw, 1024),
        u64_at(raw, 1032) == 0 <==> row_of(raw).meta.undo_ptr is None,
        row_of(raw).meta.undo_ptr matches Some(u) ==> u.page_id == u64_at(raw, 1032) && u.slot_id
            == u16_at(raw, 1040),
        row_of(raw).meta.flags == u16_at(raw, 1042),
        row_of(raw).meta.intent_txn_id == u64_at(raw, 1044),
        row_of(raw).meta.intent_lsn == u64_at(raw, 1052),
{
}

/// A page takes just as many entries as fit behind its header of 48 bytes, each with its
/// key of 16 bytes, its payload of 1060 bytes for a row and 8 for a child, and 2 bytes in
/// the table.
pub proof fn law_page_capacity(n: int)
    requires
        0 <= n,
    ensures
        48 + 1078 * n <= 16384 <==> n <= max_keys_of(2),
        48 + 26 * n <= 16384 <==> n <= max_keys_of(1),
{
    assert(entry_size_of(2) == 1076 && entry_size_of(1) == 24);
    let a = OFFSET_ENTRY_SIZE + entry_size_of(2);
    let b = OFFSET_ENTRY_SIZE + entry_size_of(1);
    assert(a == 1078 && b == 26);
    assert(16336int / a == 16336int / 1078 && 16336int / b == 16336int / 26);
}

} // verus!
