//! A free space map in pages.
//!
//! The free space of a data page is a class, a byte. The classes of all data
//! pages are the entries of level 0; an entry of a higher level is the greatest
//! class in a group of entries below it. The map is a hint: a candidate has to
//! be checked against the data page.
use vstd::prelude::*;

use crate::common::{bytes_view, io_error, is_io_error, page_bytes, page_from_vec, Error,
    IoErrorKind, Page, PageId, Result, PAGE_SIZE};
use crate::embedded::page_map::{find_page, merge_pages, store_page};
use crate::layout::{bytes_eq, copy_bytes, get_u32, get_u64, le4, le8, lemma_field4, lemma_field8,
    push_bytes, push_u32, push_u64, u32_at, u64_at, zeroed, zeros};
use crate::text::{dec, join_num};
use crate::txn_page_provider::page_views;
use std::collections::BTreeMap;

verus! {

broadcast use vstd::std_specs::btree::group_btree_axioms;

/// The page that says where the levels lie.
pub const FSM_META_PAGE_ID: PageId = 1;

pub const FSM_VERSION: u32 = 2;

/// Entries of a page.
pub const FANOUT: u64 = 16384;

pub const MAX_LEVELS: usize = 8;

#[derive(Debug, Clone, Copy, PartialEq, Eq)]
pub struct FsmMeta {
    pub data_base: PageId,
    pub leaf_count: u64,
    pub level_count: u32,
    /// First page of each level.
    pub level_base: [PageId; MAX_LEVELS],
    /// First page behind the map.
    pub next_fsm_page_id: PageId,
}

/// `SKFSM` and three zero bytes.
pub open spec fn fsm_magic() -> Seq<u8> {
    seq![83u8, 75, 70, 83, 77, 0, 0, 0]
}

/// The first `n` level bases, 8 bytes each.
pub open spec fn base_bytes(bases: Seq<u64>, n: int) -> Seq<u8>
    decreases n,
{
    if n <= 0 {
        seq![]
    } else {
        base_bytes(bases, n - 1) + le8(bases[n - 1] as int)
    }
}

#[verifier::opaque]
pub open spec fn fsm_head(m: FsmMeta) -> Seq<u8> {
    fsm_magic() + le4(FSM_VERSION as int) + le8(m.data_base as int) + le8(m.leaf_count as int)
        + le4(m.level_count as int)
}

/// The bytes of the page.
pub open spec fn fsm_bytes(m: FsmMeta) -> Seq<u8> {
    fsm_head(m) + base_bytes(m.level_base@, 8) + le8(m.next_fsm_page_id as int) + zeros(
        PAGE_SIZE - 104,
    )
}

proof fn lemma_base_bytes_len(bases: Seq<u64>, n: int)
    requires
        0 <= n,
    ensures
        base_bytes(bases, n).len() == 8 * n,
    decreases n,
{
    if n > 0 {
        lemma_base_bytes_len(bases, n - 1);
    }
}

impl FsmMeta {
    pub fn encode(&self) -> (r: Page)
        ensures
            bytes_view(r) == fsm_bytes(*self),
            bytes_view(r).len() == PAGE_SIZE,
    {
        let mut p: Vec<u8> = Vec::new();
        let magic: [u8; 8] = [83u8, 75, 70, 83, 77, 0, 0, 0];
        assert(magic@ =~= fsm_magic());
        push_bytes(&mut p, magic.as_slice());
        push_u32(&mut p, FSM_VERSION);
        push_u64(&mut p, self.data_base);
        push_u64(&mut p, self.leaf_count);
        push_u32(&mut p, self.level_count);
        assert(p@ =~= fsm_head(*self) && p@.len() == 32) by {
            reveal(fsm_head);
        }
        assert(p@ =~= fsm_head(*self) + base_bytes(self.level_base@, 0));
        let mut i: usize = 0;
        while i < MAX_LEVELS
            invariant
                i <= MAX_LEVELS,
                p@ == fsm_head(*self) + base_bytes(self.level_base@, i as int),
                p@.len() == 32 + 8 * i,
            decreases MAX_LEVELS - i,
        {
            push_u64(&mut p, self.level_base[i]);
            assert(p@ =~= fsm_head(*self) + base_bytes(self.level_base@, i + 1));
            i += 1;
        }
        push_u64(&mut p, self.next_fsm_page_id);
        let rest: Vec<u8> = zeroed(PAGE_SIZE - 104);
        push_bytes(&mut p, rest.as_slice());
        assert(p@ =~= fsm_bytes(*self));
        page_from_vec(p)
    }

    pub fn decode(page: &[u8]) -> (r: Result<FsmMeta>)
        ensures
            ({
                let s = page@;
                if s.len() != PAGE_SIZE {
                    r matches Err(Error::InvalidPageSize(a, b)) && a == s.len() && b == PAGE_SIZE
                } else if s.subrange(0, 8) != fsm_magic() {
                    r matches Err(e) && is_io_error(
                        e,
                        IoErrorKind::InvalidData,
                        "invalid fsm meta magic"@,
                    )
                } else if u32_at(s, 8) != FSM_VERSION {
                    r matches Err(e) && is_io_error(
                        e,
                        IoErrorKind::InvalidData,
                        "unsupported fsm meta version: "@ + dec(u32_at(s, 8)),
                    )
                } else {
                    r matches Ok(m) && says_fsm(s, m)
                }
            }),
    {
        if page.len() != PAGE_SIZE {
            return Err(Error::InvalidPageSize(page.len(), PAGE_SIZE));
        }
        let magic: [u8; 8] = [83u8, 75, 70, 83, 77, 0, 0, 0];
        assert(magic@ =~= fsm_magic());
        if !bytes_eq(vstd::slice::slice_subrange(page, 0, 8), magic.as_slice()) {
            return Err(io_error(IoErrorKind::InvalidData, "invalid fsm meta magic"));
        }
        let ver: u32 = get_u32(page, 8);
        if ver != FSM_VERSION {
            let m = join_num("unsupported fsm meta version: ", ver as u64);
            return Err(io_error(IoErrorKind::InvalidData, m.as_str()));
        }
        let mut level_base: [u64; MAX_LEVELS] = [0u64; MAX_LEVELS];
        let mut i: usize = 0;
        while i < MAX_LEVELS
            invariant
                i <= MAX_LEVELS,
                page@.len() == PAGE_SIZE,
                forall|j: int|
                    0 <= j < i ==> #[trigger] level_base@[j] == u64_at(page@, 32 + 8 * j),
            decreases MAX_LEVELS - i,
        {
            level_base[i] = get_u64(page, 32 + 8 * i);
            i += 1;
        }
        Ok(
            FsmMeta {
                data_base: get_u64(page, 12),
                leaf_count: get_u64(page, 20),
                level_count: get_u32(page, 28),
                level_base,
                next_fsm_page_id: get_u64(page, 96),
            },
        )
    }
}

/// The page says `m`.
pub open spec fn says_fsm(s: Seq<u8>, m: FsmMeta) -> bool {
    &&& m.data_base == u64_at(s, 12)
    &&& m.leaf_count == u64_at(s, 20)
    &&& m.level_count == u32_at(s, 28)
    &&& forall|j: int|
        0 <= j < MAX_LEVELS ==> #[trigger] m.level_base@[j] == u64_at(s, 32 + 8 * j)
    &&& m.next_fsm_page_id == u64_at(s, 96)
}

proof fn lemma_base_at(bases: Seq<u64>, n: int, j: int)
    requires
        0 <= j < n <= bases.len(),
    ensures
        base_bytes(bases, n).len() == 8 * n,
        base_bytes(bases, n).subrange(8 * j, 8 * j + 8) == le8(bases[j] as int),
    decreases n,
{
    lemma_base_bytes_len(bases, n);
    lemma_base_bytes_len(bases, n - 1);
    let b = base_bytes(bases, n);
    if j == n - 1 {
        assert(b.subrange(8 * j, 8 * j + 8) =~= le8(bases[j] as int));
    } else {
        lemma_base_at(bases, n - 1, j);
        assert(b.subrange(8 * j, 8 * j + 8) =~= base_bytes(bases, n - 1).subrange(
            8 * j,
            8 * j + 8,
        ));
    }
}

/// A page that was encoded is decoded again.
pub proof fn law_fsm_round_trip(m: FsmMeta)
    ensures
        ({
            let s = fsm_bytes(m);
            &&& s.len() == PAGE_SIZE
            &&& s.subrange(0, 8) == fsm_magic()
            &&& u32_at(s, 8) == FSM_VERSION
            &&& says_fsm(s, m)
        }),
{
    let s = fsm_bytes(m);
    let h = fsm_head(m);
    lemma_base_bytes_len(m.level_base@, 8);
    assert(h.len() == 32 && h.subrange(0, 8) =~= fsm_magic() && h.subrange(8, 12) =~= le4(
        FSM_VERSION as int,
    ) && h.subrange(12, 20) =~= le8(m.data_base as int) && h.subrange(20, 28) =~= le8(
        m.leaf_count as int,
    ) && h.subrange(28, 32) =~= le4(m.level_count as int)) by {
        reveal(fsm_head);
    }
    assert(s.subrange(0, 8) =~= h.subrange(0, 8));
    assert(s.subrange(8, 12) =~= h.subrange(8, 12));
    lemma_field4(s, 8, FSM_VERSION as int);
    assert(s.subrange(12, 20) =~= h.subrange(12, 20));
    lemma_field8(s, 12, m.data_base as int);
    assert(s.subrange(20, 28) =~= h.subrange(20, 28));
    lemma_field8(s, 20, m.leaf_count as int);
    assert(s.subrange(28, 32) =~= h.subrange(28, 32));
    lemma_field4(s, 28, m.level_count as int);
    assert forall|j: int| 0 <= j < MAX_LEVELS implies #[trigger] m.level_base@[j] == u64_at(
        s,
        32 + 8 * j,
    ) by {
        lemma_base_at(m.level_base@, 8, j);
        let b = base_bytes(m.level_base@, 8);
        assert(s.subrange(32 + 8 * j, 40 + 8 * j) =~= b.subrange(8 * j, 8 * j + 8));
        lemma_field8(s, 32 + 8 * j, m.level_base@[j] as int);
    }
    assert(s.subrange(96, 104) =~= le8(m.next_fsm_page_id as int));
    lemma_field8(s, 96, m.next_fsm_page_id as int);
}

/// Groups, or pages, that `n` entries need.
pub open spec fn groups(n: int) -> int {
    (n + FANOUT - 1) / (FANOUT as int)
}

/// Entries of a level.
pub open spec fn level_len_spec(leaves: int, level: int) -> int
    decreases level,
{
    if level <= 0 {
        leaves
    } else {
        groups(level_len_spec(leaves, level - 1))
    }
}

/// Pages of a level.
pub open spec fn level_pages(leaves: int, level: int) -> int {
    groups(level_len_spec(leaves, level))
}

/// Pages of the first `n` levels.
pub open spec fn pages_before(leaves: int, n: int) -> int
    decreases n,
{
    if n <= 0 {
        0
    } else {
        pages_before(leaves, n - 1) + level_pages(leaves, n - 1)
    }
}

/// `n` is the number of levels: the last one has one entry, or none where there
/// are no leaves, and the one before it has more.
pub open spec fn is_level_count(leaves: int, n: int) -> bool {
    &&& 1 <= n <= MAX_LEVELS
    &&& n == MAX_LEVELS || level_len_spec(leaves, n - 1) <= 1
    &&& forall|l: int| 0 <= l < n - 1 ==> #[trigger] level_len_spec(leaves, l) > 1
}

proof fn lemma_groups(n: int)
    requires
        0 <= n,
    ensures
        0 <= groups(n) <= n,
        n > 0 ==> groups(n) > 0,
        n > 1 ==> groups(n) < n,
        groups(n) * FANOUT >= n,
{
}

proof fn lemma_level_len(leaves: int, level: int)
    requires
        0 <= leaves,
        0 <= level,
    ensures
        0 <= level_len_spec(leaves, level) <= leaves,
        leaves > 0 ==> level_len_spec(leaves, level) > 0,
        0 <= level_pages(leaves, level) <= leaves,
    decreases level,
{
    if level > 0 {
        lemma_level_len(leaves, level - 1);
        lemma_groups(level_len_spec(leaves, level - 1));
    }
    lemma_groups(level_len_spec(leaves, level));
}

/// Levels of a map with the given number of leaves.
fn levels_for_leaves(leaves: u64) -> (r: u32)
    requires
        leaves + FANOUT - 1 <= u64::MAX,
    ensures
        is_level_count(leaves as int, r as int),
{
    let mut n: u64 = leaves;
    let mut levels: u32 = 1;
    while n > 1 && (levels as usize) < MAX_LEVELS
        invariant
            leaves + FANOUT - 1 <= u64::MAX,
            1 <= levels <= MAX_LEVELS,
            n == level_len_spec(leaves as int, levels - 1),
            n <= leaves,
            forall|l: int| 0 <= l < levels - 1 ==> #[trigger] level_len_spec(leaves as int, l) > 1,
        decreases MAX_LEVELS - levels,
    {
        proof {
            lemma_groups(n as int);
        }
        n = (n + (FANOUT - 1)) / FANOUT;
        levels += 1;
    }
    levels
}

/// Entries of a level.
fn level_len(leaves: u64, level: u32) -> (r: u64)
    requires
        leaves + FANOUT - 1 <= u64::MAX,
    ensures
        r == level_len_spec(leaves as int, level as int),
{
    let mut n: u64 = leaves;
    let mut l: u32 = 0;
    while l < level
        invariant
            leaves + FANOUT - 1 <= u64::MAX,
            l <= level,
            n == level_len_spec(leaves as int, l as int),
            n <= leaves,
        decreases level - l,
    {
        proof {
            lemma_groups(n as int);
        }
        n = (n + (FANOUT - 1)) / FANOUT;
        l += 1;
    }
    n
}

/// Pages of a level.
fn level_page_count(leaves: u64, level: u32) -> (r: u64)
    requires
        leaves + FANOUT - 1 <= u64::MAX,
    ensures
        r == level_pages(leaves as int, level as int),
        r <= leaves,
{
    let n: u64 = level_len(leaves, level);
    proof {
        lemma_level_len(leaves as int, level as int);
    }
    (n + (FANOUT - 1)) / FANOUT
}

/// The class of a page with that many free bytes.
pub fn class_from_free_bytes(free: usize) -> (r: u8)
    ensures
        r == (if free / 64 < 255 {
            free / 64
        } else {
            255
        }),
        64 * r <= free,
        r < 255 ==> free < 64 * r + 64,
{
    let c: usize = free / 64;
    if c < 255 {
        c as u8
    } else {
        255
    }
}

/// The class that a record of that many bytes needs.
pub fn need_class(need_bytes: usize) -> (r: u8)
    ensures
        r == (if need_bytes / 64 < 255 {
            need_bytes / 64
        } else {
            255
        }),
        64 * r <= need_bytes,
        r < 255 ==> need_bytes < 64 * r + 64,
{
    class_from_free_bytes(need_bytes)
}

/// `out` is `head` followed by the zero pages `base + from`, ..., `base + to - 1`.
pub open spec fn with_zero_pages(
    head: Seq<(u64, Seq<u8>)>,
    base: int,
    from: int,
    to: int,
) -> Seq<(u64, Seq<u8>)> {
    if from < to {
        head + Seq::new(
            (to - from) as nat,
            |i: int| ((base + from + i) as u64, zeros(PAGE_SIZE as int)),
        )
    } else {
        head
    }
}

pub open spec fn writes_view(ws: Seq<(PageId, Page)>) -> Seq<(u64, Seq<u8>)> {
    Seq::new(ws.len(), |i: int| (ws[i].0, bytes_view(ws[i].1)))
}

/// Appends zero pages.
fn push_zero_pages(writes: &mut Vec<(PageId, Page)>, base: u64, from: u64, to: u64)
    requires
        from < to ==> base + to <= u64::MAX,
    ensures
        writes_view(final(writes)@) == with_zero_pages(
            writes_view(old(writes)@),
            base as int,
            from as int,
            to as int,
        ),
{
    let ghost head = writes_view(writes@);
    let mut i: u64 = from;
    while i < to
        invariant
            from <= i,
            from < to ==> base + to <= u64::MAX && i <= to,
            from >= to ==> i == from,
            writes_view(writes@) == with_zero_pages(head, base as int, from as int, i as int),
            head == writes_view(old(writes)@),
        decreases to - i,
    {
        let page = page_from_vec(zeroed(PAGE_SIZE));
        assert(bytes_view(page) =~= zeros(PAGE_SIZE as int));
        let ghost before = writes_view(writes@);
        writes.push((base + i, page));
        assert(writes_view(writes@) =~= before.push(
            ((base + i) as u64, zeros(PAGE_SIZE as int)),
        ));
        assert(before.push(((base + i) as u64, zeros(PAGE_SIZE as int))) =~= with_zero_pages(
            head,
            base as int,
            from as int,
            i + 1,
        ));
        i += 1;
    }
}

proof fn lemma_pages_before(leaves: int, n: int)
    requires
        0 <= leaves,
        0 <= n,
    ensures
        0 <= pages_before(leaves, n),
        forall|l: int| 0 <= l <= n ==> 0 <= #[trigger] pages_before(leaves, l) <= pages_before(leaves, n),
    decreases n,
{
    if n > 0 {
        lemma_pages_before(leaves, n - 1);
        lemma_level_len(leaves, n - 1);
    }
}

/// A map without free space: its meta page and the pages to write, the meta
/// page first and then the zero pages of all levels, one level after another.
pub fn init_fsm_pages(data_base: PageId, leaves: u64, level0_base: PageId) -> (r: (
    FsmMeta,
    Vec<(PageId, Page)>,
))
    requires
        leaves + FANOUT - 1 <= u64::MAX,
        level0_base + pages_before(leaves as int, MAX_LEVELS as int) <= u64::MAX,
    ensures
        r.0.data_base == data_base,
        r.0.leaf_count == leaves,
        is_level_count(leaves as int, r.0.level_count as int),
        forall|l: int|
            0 <= l < MAX_LEVELS ==> #[trigger] r.0.level_base@[l] == (if l <= r.0.level_count {
                level0_base + pages_before(leaves as int, l)
            } else {
                0
            }),
        r.0.next_fsm_page_id == level0_base + pages_before(leaves as int, r.0.level_count as int),
        writes_view(r.1@) == with_zero_pages(
            seq![(FSM_META_PAGE_ID, fsm_bytes(r.0))],
            level0_base as int,
            0,
            pages_before(leaves as int, r.0.level_count as int),
        ),
{
    let level_count: u32 = levels_for_leaves(leaves);
    let mut level_base: [u64; MAX_LEVELS] = [0u64; MAX_LEVELS];
    level_base[0] = level0_base;
    let mut next: u64 = level0_base;
    let mut l: u32 = 0;
    while l < level_count
        invariant
            leaves + FANOUT - 1 <= u64::MAX,
            level0_base + pages_before(leaves as int, MAX_LEVELS as int) <= u64::MAX,
            l <= level_count <= MAX_LEVELS,
            next == level0_base + pages_before(leaves as int, l as int),
            forall|j: int|
                0 <= j < MAX_LEVELS ==> #[trigger] level_base@[j] == (if j <= l {
                    level0_base + pages_before(leaves as int, j)
                } else {
                    0
                }),
        decreases level_count - l,
    {
        let pages: u64 = level_page_count(leaves, l);
        proof {
            lemma_pages_before(leaves as int, MAX_LEVELS as int);
            assert(pages_before(leaves as int, l + 1) == pages_before(leaves as int, l as int)
                + pages);
        }
        next = next + pages;
        if (l as usize) + 1 < MAX_LEVELS {
            level_base[(l as usize) + 1] = next;
        }
        l += 1;
    }
    let meta = FsmMeta {
        data_base,
        leaf_count: leaves,
        level_count,
        level_base,
        next_fsm_page_id: next,
    };
    let mut writes: Vec<(PageId, Page)> = Vec::new();
    writes.push((FSM_META_PAGE_ID, meta.encode()));
    let ghost head = seq![(FSM_META_PAGE_ID, fsm_bytes(meta))];
    assert(writes_view(writes@) =~= head);
    let mut l: u32 = 0;
    while l < level_count
        invariant
            leaves + FANOUT - 1 <= u64::MAX,
            level0_base + pages_before(leaves as int, MAX_LEVELS as int) <= u64::MAX,
            l <= level_count <= MAX_LEVELS,
            meta.level_base == level_base,
            forall|j: int|
                0 <= j < MAX_LEVELS ==> #[trigger] level_base@[j] == (if j <= level_count {
                    level0_base + pages_before(leaves as int, j)
                } else {
                    0
                }),
            writes_view(writes@) == with_zero_pages(
                head,
                level0_base as int,
                0,
                pages_before(leaves as int, l as int),
            ),
        decreases level_count - l,
    {
        let base: u64 = meta.level_base[l as usize];
        let pages: u64 = level_page_count(leaves, l);
        let ghost done = pages_before(leaves as int, l as int);
        proof {
            lemma_pages_before(leaves as int, MAX_LEVELS as int);
            assert(pages_before(leaves as int, l + 1) == done + pages);
            assert(base == level0_base + done);
        }
        push_zero_pages(&mut writes, base, 0, pages);
        assert(writes_view(writes@) =~= with_zero_pages(head, level0_base as int, 0, done + pages));
        l += 1;
    }
    (meta, writes)
}

/// The page and the place of an entry.
pub open spec fn entry_page(meta: FsmMeta, level: int, idx: int) -> int {
    meta.level_base@[level] + idx / (FANOUT as int)
}

/// The class at an entry; nothing when its page is missing.
pub open spec fn class_at(meta: FsmMeta, pages: Map<u64, Seq<u8>>, level: int, idx: int) -> Option<
    u8,
> {
    let pid = entry_page(meta, level, idx) as u64;
    let off = idx % (FANOUT as int);
    if !pages.contains_key(pid) {
        None
    } else if off < pages[pid].len() {
        Some(pages[pid][off])
    } else {
        Some(0)
    }
}

fn entry_loc(meta: &FsmMeta, level: u32, idx: u64) -> (r: (PageId, usize))
    requires
        level < MAX_LEVELS,
        entry_page(*meta, level as int, idx as int) <= u64::MAX,
    ensures
        r.0 == entry_page(*meta, level as int, idx as int),
        r.1 == idx % FANOUT,
        r.1 < PAGE_SIZE,
{
    let base: u64 = meta.level_base[level as usize];
    (base + idx / FANOUT, (idx % FANOUT) as usize)
}

/// Reads an entry.
pub fn get_entry(meta: &FsmMeta, pages: &BTreeMap<u64, Page>, level: u32, idx: u64) -> (r: Result<u8>)
    requires
        level < MAX_LEVELS,
        entry_page(*meta, level as int, idx as int) <= u64::MAX,
    ensures
        match class_at(*meta, page_views(pages@), level as int, idx as int) {
            Some(c) => r matches Ok(v) && v == c,
            None => r matches Err(Error::InMemoryPageMissing(pid)) && pid == entry_page(
                *meta,
                level as int,
                idx as int,
            ),
        },
{
    let (pid, off) = entry_loc(meta, level, idx);
    match find_page(pages, pid) {
        None => Err(Error::InMemoryPageMissing(pid)),
        Some(p) => {
            let b = page_bytes(&p);
            if off < b.len() {
                Ok(b[off])
            } else {
                Ok(0)
            }
        },
    }
}

/// All pages are whole.
pub open spec fn whole_pages(pages: Map<u64, Seq<u8>>) -> bool {
    forall|id: u64| #[trigger] pages.contains_key(id) ==> pages[id].len() == PAGE_SIZE
}

/// The page of an entry after the entry was set; a missing page counts as zero.
pub open spec fn entry_set(
    meta: FsmMeta,
    pages: Map<u64, Seq<u8>>,
    level: int,
    idx: int,
    value: u8,
) -> Seq<u8> {
    let pid = entry_page(meta, level, idx) as u64;
    let page = if pages.contains_key(pid) {
        pages[pid]
    } else {
        zeros(PAGE_SIZE as int)
    };
    page.update(idx % (FANOUT as int), value)
}

/// Sets an entry. Returns its page as it is to be written.
pub fn set_entry(
    meta: &FsmMeta,
    pages: &BTreeMap<u64, Page>,
    level: u32,
    idx: u64,
    value: u8,
) -> (r: Result<(PageId, Page)>)
    requires
        level < MAX_LEVELS,
        entry_page(*meta, level as int, idx as int) <= u64::MAX,
        whole_pages(page_views(pages@)),
    ensures
        r matches Ok((pid, p)) && pid == entry_page(*meta, level as int, idx as int) && bytes_view(
            p,
        ) == entry_set(*meta, page_views(pages@), level as int, idx as int, value),
{
    let (pid, off) = entry_loc(meta, level, idx);
    let mut p: Vec<u8> = match find_page(pages, pid) {
        Some(p) => copy_bytes(page_bytes(&p)),
        None => zeroed(PAGE_SIZE),
    };
    p.set(off, value);
    Ok((pid, page_from_vec(p)))
}

/// The pages that levels `0..n` gain when the map grows, level by level.
pub open spec fn with_grown_levels(
    head: Seq<(u64, Seq<u8>)>,
    bases: Seq<u64>,
    leaves: int,
    desired: int,
    n: int,
) -> Seq<(u64, Seq<u8>)>
    decreases n,
{
    if n <= 0 {
        head
    } else {
        with_zero_pages(
            with_grown_levels(head, bases, leaves, desired, n - 1),
            bases[n - 1] as int,
            level_pages(leaves, n - 1),
            level_pages(desired, n - 1),
        )
    }
}

/// The end of the last of levels `0..n`, and at least `at_least`.
pub open spec fn levels_end(at_least: int, bases: Seq<u64>, desired: int, n: int) -> int
    decreases n,
{
    if n <= 0 {
        at_least
    } else {
        let prev = levels_end(at_least, bases, desired, n - 1);
        let end = bases[n - 1] + level_pages(desired, n - 1);
        if end > prev {
            end
        } else {
            prev
        }
    }
}

/// Levels of the map once it holds `desired` leaves.
pub open spec fn grown_levels(meta: FsmMeta, n: int) -> int {
    if n > meta.level_count {
        n
    } else {
        meta.level_count as int
    }
}

/// First page of level `l` once the map holds `desired` leaves: new levels lie
/// behind the pages that the map had.
pub open spec fn grown_base(meta: FsmMeta, desired: int, n: int, l: int) -> int {
    if meta.level_count <= l < n {
        meta.next_fsm_page_id + pages_before(desired, l) - pages_before(
            desired,
            meta.level_count as int,
        )
    } else {
        meta.level_base@[l] as int
    }
}

/// The page ids of a map of `desired` leaves and `n` levels can be counted.
pub open spec fn growth_fits(meta: FsmMeta, desired: int, n: int) -> bool {
    &&& n > meta.level_count ==> meta.next_fsm_page_id + pages_before(desired, n) - pages_before(
        desired,
        meta.level_count as int,
    ) <= u64::MAX
    &&& forall|l: int|
        0 <= l < meta.level_count ==> #[trigger] meta.level_base@[l] + level_pages(desired, l)
            <= u64::MAX
}

/// Makes room for `desired_leaves` leaves. Returns the new meta page and the
/// pages to write, the meta page last.
pub fn ensure_capacity(meta: &FsmMeta, desired_leaves: u64) -> (r: Result<
    (FsmMeta, Vec<(PageId, Page)>),
>)
    requires
        meta.level_count <= MAX_LEVELS,
        desired_leaves + FANOUT - 1 <= u64::MAX,
        desired_leaves > meta.leaf_count ==> forall|n: int| #[trigger]
            is_level_count(desired_leaves as int, n) ==> growth_fits(
                *meta,
                desired_leaves as int,
                n,
            ),
    ensures
        desired_leaves <= meta.leaf_count ==> (r matches Ok((m, ws)) && m == *meta && ws@.len()
            == 0),
        desired_leaves > meta.leaf_count ==> (r matches Ok((m, ws)) && exists|n: int| #[trigger]
            is_level_count(desired_leaves as int, n) && is_grown(
                *meta,
                desired_leaves as int,
                n,
                m,
                writes_view(ws@),
            )),
{
    if desired_leaves <= meta.leaf_count {
        return Ok((*meta, Vec::new()));
    }
    let ghost d = desired_leaves as int;
    let ghost old_leaves = meta.leaf_count as int;
    let levels: u32 = levels_for_leaves(desired_leaves);
    let old_count: u32 = meta.level_count;
    let new_count: u32 = if levels > old_count {
        levels
    } else {
        old_count
    };
    let ghost n = levels as int;
    assert(is_level_count(d, n));
    assert(growth_fits(*meta, d, n));
    let mut bases: [u64; MAX_LEVELS] = meta.level_base;
    let mut writes: Vec<(PageId, Page)> = Vec::new();
    let mut next: u64 = meta.next_fsm_page_id;
    let mut l: u32 = old_count;
    let ghost start = pages_before(d, old_count as int);
    assert(writes_view(writes@) =~= with_zero_pages(seq![], meta.next_fsm_page_id as int, 0, 0));
    while l < new_count
        invariant
            desired_leaves + FANOUT - 1 <= u64::MAX,
            d == desired_leaves,
            n == levels,
            new_count <= MAX_LEVELS,
            new_count == grown_levels(*meta, n),
            old_count == meta.level_count,
            old_count <= l <= new_count,
            growth_fits(*meta, d, n),
            start == pages_before(d, old_count as int),
            start <= pages_before(d, l as int),
            next == meta.next_fsm_page_id + pages_before(d, l as int) - start,
            forall|j: int|
                0 <= j < MAX_LEVELS ==> #[trigger] bases@[j] == if old_count <= j < l {
                    meta.next_fsm_page_id + pages_before(d, j) - start
                } else {
                    meta.level_base@[j] as int
                },
            writes_view(writes@) == with_zero_pages(
                seq![],
                meta.next_fsm_page_id as int,
                0,
                pages_before(d, l as int) - start,
            ),
        decreases new_count - l,
    {
        let pages: u64 = level_page_count(desired_leaves, l);
        proof {
            lemma_pages_before(d, n);
            lemma_level_len(d, l as int);
            assert(pages_before(d, l + 1) == pages_before(d, l as int) + pages);
            assert(pages_before(d, l + 1) <= pages_before(d, n));
        }
        let ghost done = pages_before(d, l as int) - start;
        bases[l as usize] = next;
        push_zero_pages(&mut writes, next, 0, pages);
        assert(writes_view(writes@) =~= with_zero_pages(
            seq![],
            meta.next_fsm_page_id as int,
            0,
            done + pages,
        ));
        next = next + pages;
        l += 1;
    }
    let ghost head = writes_view(writes@);
    let mut max_end: u64 = meta.next_fsm_page_id;
    let mut l: u32 = 0;
    while l < new_count
        invariant
            desired_leaves + FANOUT - 1 <= u64::MAX,
            desired_leaves > meta.leaf_count,
            d == desired_leaves,
            old_leaves == meta.leaf_count,
            n == levels,
            new_count <= MAX_LEVELS,
            new_count == grown_levels(*meta, n),
            old_count == meta.level_count,
            growth_fits(*meta, d, n),
            start == pages_before(d, old_count as int),
            l <= new_count,
            forall|j: int|
                0 <= j < MAX_LEVELS ==> #[trigger] bases@[j] == grown_base(*meta, d, n, j),
            writes_view(writes@) == with_grown_levels(head, bases@, old_leaves, d, l as int),
            max_end == levels_end(meta.next_fsm_page_id as int, bases@, d, l as int),
        decreases new_count - l,
    {
        let old_pages: u64 = level_page_count(meta.leaf_count, l);
        let new_pages: u64 = level_page_count(desired_leaves, l);
        let base: u64 = bases[l as usize];
        proof {
            assert(bases@[l as int] == grown_base(*meta, d, n, l as int));
            if old_count <= l {
                lemma_pages_before(d, n);
                assert(pages_before(d, l + 1) == pages_before(d, l as int) + new_pages);
                assert(pages_before(d, l + 1) <= pages_before(d, n));
            } else {
                assert(meta.level_base@[l as int] + level_pages(d, l as int) <= u64::MAX);
            }
        }
        push_zero_pages(&mut writes, base, old_pages, new_pages);
        let end: u64 = base + new_pages;
        if end > max_end {
            max_end = end;
        }
        l += 1;
    }
    let new_meta = FsmMeta {
        data_base: meta.data_base,
        leaf_count: desired_leaves,
        level_count: new_count,
        level_base: bases,
        next_fsm_page_id: max_end,
    };
    let ghost before = writes_view(writes@);
    writes.push((FSM_META_PAGE_ID, new_meta.encode()));
    proof {
        assert(writes_view(writes@) =~= before.push((FSM_META_PAGE_ID, fsm_bytes(new_meta))));
        assert(is_grown(*meta, d, n, new_meta, writes_view(writes@)));
    }
    Ok((new_meta, writes))
}

/// The map after it grew to `desired` leaves and the levels they need.
pub open spec fn is_grown(
    meta: FsmMeta,
    desired: int,
    n: int,
    m: FsmMeta,
    writes: Seq<(u64, Seq<u8>)>,
) -> bool {
    let new_pages = if n > meta.level_count {
        pages_before(desired, n) - pages_before(desired, meta.level_count as int)
    } else {
        0
    };
    &&& m.data_base == meta.data_base
    &&& m.leaf_count == desired
    &&& m.level_count == grown_levels(meta, n)
    &&& forall|l: int|
        0 <= l < MAX_LEVELS ==> #[trigger] m.level_base@[l] == grown_base(meta, desired, n, l)
    &&& m.next_fsm_page_id == levels_end(
        meta.next_fsm_page_id as int,
        m.level_base@,
        desired,
        m.level_count as int,
    )
    &&& writes == with_grown_levels(
        with_zero_pages(seq![], meta.next_fsm_page_id as int, 0, new_pages),
        m.level_base@,
        meta.leaf_count as int,
        desired,
        m.level_count as int,
    ).push((FSM_META_PAGE_ID, fsm_bytes(m)))
}

/// The entries of every level can be addressed.
pub open spec fn levels_fit(meta: FsmMeta) -> bool {
    &&& meta.level_count <= MAX_LEVELS
    &&& meta.leaf_count + FANOUT - 1 <= u64::MAX
    &&& forall|l: int|
        0 <= l < meta.level_count ==> #[trigger] meta.level_base@[l] + level_pages(
            meta.leaf_count as int,
            l,
        ) <= u64::MAX
}

/// Where the group of children of an entry ends.
pub open spec fn group_end(meta: FsmMeta, level: int, idx: int) -> int {
    let end = idx * FANOUT + FANOUT;
    let len = level_len_spec(meta.leaf_count as int, level - 1);
    if len < end {
        len
    } else {
        end
    }
}

/// The first of entries `from..to` of a level whose class is at least `need`;
/// an error with the id of a page that is missing on the way.
pub open spec fn first_fit(
    meta: FsmMeta,
    pages: Map<u64, Seq<u8>>,
    level: int,
    from: int,
    to: int,
    need: u8,
) -> std::result::Result<Option<int>, int>
    decreases to - from,
{
    if from >= to {
        Ok(None)
    } else {
        match class_at(meta, pages, level, from) {
            None => Err(entry_page(meta, level, from)),
            Some(c) => if c >= need {
                Ok(Some(from))
            } else {
                first_fit(meta, pages, level, from + 1, to, need)
            },
        }
    }
}

/// The leaf that is found below an entry.
pub open spec fn descend(
    meta: FsmMeta,
    pages: Map<u64, Seq<u8>>,
    level: int,
    idx: int,
    need: u8,
) -> std::result::Result<Option<int>, int>
    decreases level,
{
    if level <= 0 {
        Ok(Some(idx))
    } else {
        match first_fit(
            meta,
            pages,
            level - 1,
            idx * FANOUT,
            group_end(meta, level, idx),
            need,
        ) {
            Ok(Some(c)) => descend(meta, pages, level - 1, c, need),
            other => other,
        }
    }
}

/// The level with one entry.
pub open spec fn top_level(meta: FsmMeta) -> int {
    if meta.level_count == 0 {
        0
    } else {
        meta.level_count - 1
    }
}

/// The data page that is proposed.
pub open spec fn candidate(meta: FsmMeta, pages: Map<u64, Seq<u8>>, need: u8) -> std::result::Result<
    Option<int>,
    int,
> {
    match class_at(meta, pages, top_level(meta), 0) {
        None => Err(entry_page(meta, top_level(meta), 0)),
        Some(c) => if c < need {
            Ok(None)
        } else {
            match descend(meta, pages, top_level(meta), 0, need) {
                Ok(Some(i)) => if i >= meta.leaf_count {
                    Ok(None)
                } else {
                    Ok(Some(i))
                },
                other => other,
            }
        },
    }
}

/// An entry lies in the pages of its level.
proof fn lemma_entry_page(meta: FsmMeta, level: int, idx: int)
    requires
        levels_fit(meta),
        0 <= level < meta.level_count,
        0 <= idx < level_len_spec(meta.leaf_count as int, level),
    ensures
        meta.level_base@[level] <= entry_page(meta, level, idx) < meta.level_base@[level]
            + level_pages(meta.leaf_count as int, level) <= u64::MAX,
{
    let n = level_len_spec(meta.leaf_count as int, level);
    assert(idx / (FANOUT as int) < (n + FANOUT - 1) / (FANOUT as int));
    assert(meta.level_base@[level] + level_pages(meta.leaf_count as int, level) <= u64::MAX);
}

fn find_in_group(
    meta: &FsmMeta,
    pages: &BTreeMap<u64, Page>,
    level: u32,
    from: u64,
    to: u64,
    need: u8,
) -> (r: Result<Option<u64>>)
    requires
        levels_fit(*meta),
        level < meta.level_count,
        to <= level_len_spec(meta.leaf_count as int, level as int),
    ensures
        match first_fit(
            *meta,
            page_views(pages@),
            level as int,
            from as int,
            to as int,
            need,
        ) {
            Ok(Some(i)) => r matches Ok(Some(c)) && c == i && from <= c < to,
            Ok(None) => r matches Ok(None),
            Err(pid) => r matches Err(Error::InMemoryPageMissing(p)) && p == pid,
        },
{
    let mut i: u64 = from;
    while i < to
        invariant
            levels_fit(*meta),
            level < meta.level_count,
            to <= level_len_spec(meta.leaf_count as int, level as int),
            from <= i,
            first_fit(*meta, page_views(pages@), level as int, from as int, to as int, need)
                == first_fit(*meta, page_views(pages@), level as int, i as int, to as int, need),
        decreases to - i,
    {
        proof {
            lemma_entry_page(*meta, level as int, i as int);
        }
        match get_entry(meta, pages, level, i) {
            Err(e) => {
                return Err(e);
            },
            Ok(v) => {
                if v >= need {
                    return Ok(Some(i));
                }
            },
        }
        i += 1;
    }
    Ok(None)
}

/// Proposes a data page with at least the free space of class `need`.
pub fn find_candidate(meta: &FsmMeta, pages: &BTreeMap<u64, Page>, need: u8) -> (r: Result<
    Option<u64>,
>)
    requires
        levels_fit(*meta),
    ensures
        match candidate(*meta, page_views(pages@), need) {
            Ok(Some(i)) => r matches Ok(Some(c)) && c == i,
            Ok(None) => r matches Ok(None),
            Err(pid) => r matches Err(Error::InMemoryPageMissing(p)) && p == pid,
        },
{
    let top: u32 = if meta.level_count == 0 {
        0
    } else {
        meta.level_count - 1
    };
    let ghost v = page_views(pages@);
    let root: u8 = match get_entry(meta, pages, top, 0) {
        Ok(c) => c,
        Err(e) => {
            return Err(e);
        },
    };
    if root < need {
        return Ok(None);
    }
    let mut idx: u64 = 0;
    let mut level: u32 = top;
    while level > 0
        invariant
            levels_fit(*meta),
            v == page_views(pages@),
            level <= top,
            top == top_level(*meta),
            idx == 0 || idx < level_len_spec(meta.leaf_count as int, level as int),
            class_at(*meta, v, top as int, 0) matches Some(c) && c >= need,
            descend(*meta, v, top as int, 0, need) == descend(
                *meta,
                v,
                level as int,
                idx as int,
                need,
            ),
        decreases level,
    {
        let len: u64 = level_len(meta.leaf_count, level - 1);
        proof {
            lemma_level_len(meta.leaf_count as int, level - 1);
            if idx > 0 {
                assert(idx * FANOUT < len) by (nonlinear_arith)
                    requires
                        idx < (len + 16384 - 1) / 16384,
                        FANOUT == 16384,
                ;
            }
        }
        let start: u64 = idx * FANOUT;
        let limit: u64 = if start > len || len - start < FANOUT {
            len
        } else {
            start + FANOUT
        };
        assert(limit == group_end(*meta, level as int, idx as int));
        match find_in_group(meta, pages, level - 1, start, limit, need) {
            Err(e) => {
                return Err(e);
            },
            Ok(None) => {
                return Ok(None);
            },
            Ok(Some(c)) => {
                idx = c;
            },
        }
        level -= 1;
    }
    if idx >= meta.leaf_count {
        return Ok(None);
    }
    Ok(Some(idx))
}

/// The entry is the greatest class in its group.
pub open spec fn is_group_max(meta: FsmMeta, pages: Map<u64, Seq<u8>>, level: int, idx: int) -> bool {
    &&& class_at(meta, pages, level, idx) is Some
    &&& forall|j: int|
        idx * FANOUT <= j < group_end(meta, level, idx) ==> (#[trigger] class_at(
            meta,
            pages,
            level - 1,
            j,
        ) matches Some(c) && c <= class_at(meta, pages, level, idx)->0)
    &&& exists|j: int|
        idx * FANOUT <= j < group_end(meta, level, idx) && #[trigger] class_at(
            meta,
            pages,
            level - 1,
            j,
        ) == class_at(meta, pages, level, idx)
}

/// Every entry above level 0 is the greatest class in its group, and the last
/// level has one entry.
pub open spec fn map_ok(meta: FsmMeta, pages: Map<u64, Seq<u8>>) -> bool {
    &&& levels_fit(meta)
    &&& meta.level_count >= 1
    &&& meta.leaf_count >= 1
    &&& level_len_spec(meta.leaf_count as int, meta.level_count - 1) == 1
    &&& forall|i: int| 0 <= i < meta.leaf_count ==> #[trigger] class_at(meta, pages, 0, i) is Some
    &&& forall|l: int, i: int|
        0 < l < meta.level_count && 0 <= i < level_len_spec(meta.leaf_count as int, l)
            ==> #[trigger] is_group_max(meta, pages, l, i)
}

proof fn lemma_first_fit(
    meta: FsmMeta,
    pages: Map<u64, Seq<u8>>,
    level: int,
    from: int,
    to: int,
    need: u8,
    j: int,
)
    requires
        from <= j < to,
        forall|x: int| from <= x < to ==> #[trigger] class_at(meta, pages, level, x) is Some,
        class_at(meta, pages, level, j)->0 >= need,
    ensures
        first_fit(meta, pages, level, from, to, need) matches Ok(Some(c)) && from <= c < to
            && class_at(meta, pages, level, c)->0 >= need,
    decreases to - from,
{
    assert(class_at(meta, pages, level, from) is Some);
    if class_at(meta, pages, level, from)->0 < need {
        lemma_first_fit(meta, pages, level, from + 1, to, need, j);
    }
}

proof fn lemma_descend(meta: FsmMeta, pages: Map<u64, Seq<u8>>, level: int, idx: int, need: u8)
    requires
        map_ok(meta, pages),
        0 <= level < meta.level_count,
        0 <= idx < level_len_spec(meta.leaf_count as int, level),
        class_at(meta, pages, level, idx) matches Some(c) && c >= need,
    ensures
        descend(meta, pages, level, idx, need) matches Ok(Some(i)) && 0 <= i < meta.leaf_count
            && class_at(meta, pages, 0, i)->0 >= need,
    decreases level,
{
    if level > 0 {
        assert(is_group_max(meta, pages, level, idx));
        let from = idx * FANOUT;
        let to = group_end(meta, level, idx);
        let j = choose|j: int|
            from <= j < to && #[trigger] class_at(meta, pages, level - 1, j) == class_at(
                meta,
                pages,
                level,
                idx,
            );
        assert(from >= 0) by (nonlinear_arith)
            requires
                from == idx * FANOUT,
                idx >= 0,
        ;
        lemma_first_fit(meta, pages, level - 1, from, to, need, j);
        let c = first_fit(meta, pages, level - 1, from, to, need)->Ok_0->0;
        lemma_descend(meta, pages, level - 1, c, need);
    }
}

/// The ancestor of a leaf on a level.
pub open spec fn ancestor(leaf: int, level: int) -> int
    decreases level,
{
    if level <= 0 {
        leaf
    } else {
        ancestor(leaf, level - 1) / (FANOUT as int)
    }
}

proof fn lemma_ancestor(meta: FsmMeta, leaf: int, level: int)
    requires
        0 <= leaf < meta.leaf_count,
        0 <= level,
    ensures
        0 <= ancestor(leaf, level) < level_len_spec(meta.leaf_count as int, level),
        level > 0 ==> ancestor(leaf, level) * FANOUT <= ancestor(leaf, level - 1) < group_end(
            meta,
            level,
            ancestor(leaf, level),
        ),
    decreases level,
{
    if level > 0 {
        lemma_ancestor(meta, leaf, level - 1);
        let a = ancestor(leaf, level - 1);
        let n = level_len_spec(meta.leaf_count as int, level - 1);
        assert(a / 16384 < (n + 16384 - 1) / 16384);
        assert(a / 16384 * 16384 <= a < a / 16384 * 16384 + 16384);
    }
}

proof fn lemma_rises(meta: FsmMeta, pages: Map<u64, Seq<u8>>, leaf: int, level: int)
    requires
        map_ok(meta, pages),
        0 <= leaf < meta.leaf_count,
        0 <= level < meta.level_count,
    ensures
        class_at(meta, pages, level, ancestor(leaf, level)) matches Some(c) && c >= class_at(
            meta,
            pages,
            0,
            leaf,
        )->0,
    decreases level,
{
    if level > 0 {
        lemma_rises(meta, pages, leaf, level - 1);
        lemma_ancestor(meta, leaf, level);
        assert(is_group_max(meta, pages, level, ancestor(leaf, level)));
        assert(class_at(meta, pages, level - 1, ancestor(leaf, level - 1)) is Some);
    } else {
        assert(class_at(meta, pages, 0, leaf) is Some);
    }
}

/// In a map that is in order a page is proposed whenever one has the free space,
/// and the page that is proposed has it.
pub proof fn law_candidate_is_found(meta: FsmMeta, pages: Map<u64, Seq<u8>>, need: u8)
    requires
        map_ok(meta, pages),
    ensures
        match candidate(meta, pages, need) {
            Ok(Some(i)) => 0 <= i < meta.leaf_count && class_at(meta, pages, 0, i)->0 >= need,
            Ok(None) => forall|i: int|
                0 <= i < meta.leaf_count ==> (#[trigger] class_at(meta, pages, 0, i))->0 < need,
            Err(_) => false,
        },
{
    let top = meta.level_count - 1;
    assert forall|i: int| 0 <= i < meta.leaf_count implies ({
        let c = #[trigger] class_at(meta, pages, 0, i);
        class_at(meta, pages, top, 0) matches Some(t) && c->0 <= t
    }) by {
        lemma_rises(meta, pages, i, top);
        lemma_ancestor(meta, i, top);
    }
    assert(class_at(meta, pages, 0, 0) is Some);
    if class_at(meta, pages, top, 0)->0 >= need {
        lemma_descend(meta, pages, top, 0, need);
    }
}

/// The greatest class of entries `from..to`, 0 where there are none; an error
/// with the id of a page that is missing.
pub open spec fn greatest(
    meta: FsmMeta,
    pages: Map<u64, Seq<u8>>,
    level: int,
    from: int,
    to: int,
) -> std::result::Result<u8, int>
    decreases to - from,
{
    if from >= to {
        Ok(0)
    } else {
        match greatest(meta, pages, level, from, to - 1) {
            Err(pid) => Err(pid),
            Ok(m) => match class_at(meta, pages, level, to - 1) {
                None => Err(entry_page(meta, level, to - 1)),
                Some(c) => Ok(
                    if c > m {
                        c
                    } else {
                        m
                    },
                ),
            },
        }
    }
}

fn greatest_in_group(
    meta: &FsmMeta,
    pages: &BTreeMap<u64, Page>,
    level: u32,
    from: u64,
    to: u64,
) -> (r: Result<u8>)
    requires
        levels_fit(*meta),
        level < meta.level_count,
        to <= level_len_spec(meta.leaf_count as int, level as int),
    ensures
        match greatest(*meta, page_views(pages@), level as int, from as int, to as int) {
            Ok(m) => r matches Ok(v) && v == m,
            Err(pid) => r matches Err(Error::InMemoryPageMissing(p)) && p == pid,
        },
{
    let ghost v = page_views(pages@);
    let mut max: u8 = 0;
    let mut i: u64 = from;
    while i < to
        invariant
            levels_fit(*meta),
            level < meta.level_count,
            v == page_views(pages@),
            to <= level_len_spec(meta.leaf_count as int, level as int),
            from <= i,
            from < to ==> i <= to,
            from >= to ==> i == from,
            greatest(*meta, v, level as int, from as int, i as int) == Ok::<u8, int>(max),
        decreases to - i,
    {
        proof {
            lemma_entry_page(*meta, level as int, i as int);
        }
        match get_entry(meta, pages, level, i) {
            Err(e) => {
                proof {
                    lemma_greatest_error(*meta, v, level as int, from as int, i + 1, to as int);
                }
                return Err(e);
            },
            Ok(c) => {
                if c > max {
                    max = c;
                }
            },
        }
        i += 1;
    }
    Ok(max)
}

proof fn lemma_greatest_error(
    meta: FsmMeta,
    pages: Map<u64, Seq<u8>>,
    level: int,
    from: int,
    i: int,
    to: int,
)
    requires
        from < i <= to,
        greatest(meta, pages, level, from, i) is Err,
    ensures
        greatest(meta, pages, level, from, to) == greatest(meta, pages, level, from, i),
    decreases to - i,
{
    if i < to {
        lemma_greatest_error(meta, pages, level, from, i, to - 1);
    }
}

/// The map after levels `0..n` have taken in the new class of a leaf, and the
/// pages that were written; an error with the id of a page that is missing.
pub open spec fn raised(
    meta: FsmMeta,
    pages: Map<u64, Seq<u8>>,
    leaf: int,
    class: u8,
    n: int,
) -> std::result::Result<(Map<u64, Seq<u8>>, Seq<(u64, Seq<u8>)>), int>
    decreases n,
{
    if n <= 0 {
        Ok((pages, seq![]))
    } else {
        match raised(meta, pages, leaf, class, n - 1) {
            Err(pid) => Err(pid),
            Ok((before, writes)) => {
                let level = n - 1;
                let idx = ancestor(leaf, level);
                let value = if level == 0 {
                    Ok::<u8, int>(class)
                } else {
                    greatest(meta, before, level - 1, idx * FANOUT, group_end(meta, level, idx))
                };
                match value {
                    Err(pid) => Err(pid),
                    Ok(v) => {
                        let pid = entry_page(meta, level, idx) as u64;
                        let page = entry_set(meta, before, level, idx, v);
                        Ok((before.insert(pid, page), writes.push((pid, page))))
                    },
                }
            },
        }
    }
}

/// Levels that a change of a class is written to: level 0 in any case.
pub open spec fn levels_written(meta: FsmMeta) -> int {
    if meta.level_count == 0 {
        1
    } else {
        meta.level_count as int
    }
}

/// Sets the class of a data page and brings the levels above it up to date.
/// Returns the pages to write, from level 0 up.
pub fn update_leaf(
    meta: &FsmMeta,
    pages: &BTreeMap<u64, Page>,
    leaf_idx: u64,
    new_class: u8,
) -> (r: Result<Vec<(PageId, Page)>>)
    requires
        levels_fit(*meta),
        leaf_idx + FANOUT <= u64::MAX,
        forall|l: int|
            0 <= l < levels_written(*meta) ==> #[trigger] entry_page(
                *meta,
                l,
                ancestor(leaf_idx as int, l),
            ) <= u64::MAX,
        whole_pages(page_views(pages@)),
    ensures
        match raised(
            *meta,
            page_views(pages@),
            leaf_idx as int,
            new_class,
            levels_written(*meta),
        ) {
            Ok((_, writes)) => r matches Ok(ws) && writes_view(ws@) == writes,
            Err(pid) => r matches Err(Error::InMemoryPageMissing(p)) && p == pid,
        },
{
    let ghost v = page_views(pages@);
    let ghost leaf = leaf_idx as int;
    let mut work: BTreeMap<u64, Page> = BTreeMap::new();
    assert(page_views(work@) =~= Map::<u64, Seq<u8>>::empty());
    merge_pages(&mut work, pages);
    assert(page_views(work@) =~= v);
    let mut writes: Vec<(PageId, Page)> = Vec::new();
    let mut idx: u64 = leaf_idx;
    let mut level: u32 = 0;
    let levels: u32 = if meta.level_count == 0 {
        1
    } else {
        meta.level_count
    };
    assert(writes_view(writes@) =~= seq![]);
    while level < levels
        invariant
            levels_fit(*meta),
            v == page_views(pages@),
            leaf == leaf_idx,
            leaf_idx + FANOUT <= u64::MAX,
            levels == levels_written(*meta),
            level <= levels,
            idx <= leaf_idx,
            forall|l: int|
                0 <= l < levels_written(*meta) ==> #[trigger] entry_page(
                    *meta,
                    l,
                    ancestor(leaf_idx as int, l),
                ) <= u64::MAX,
            whole_pages(page_views(work@)),
            level > 0 ==> idx == ancestor(leaf, level - 1),
            level == 0 ==> idx == leaf,
            raised(*meta, v, leaf, new_class, level as int) == Ok::<
                (Map<u64, Seq<u8>>, Seq<(u64, Seq<u8>)>),
                int,
            >((page_views(work@), writes_view(writes@))),
        decreases levels - level,
    {
        let ghost before = writes_view(writes@);
        let ghost wv = page_views(work@);
        proof {
            assert(entry_page(*meta, level as int, ancestor(leaf, level as int)) <= u64::MAX);
        }
        let value: u8 = if level == 0 {
            new_class
        } else {
            idx = idx / FANOUT;
            let len: u64 = level_len(meta.leaf_count, level - 1);
            proof {
                lemma_level_len(meta.leaf_count as int, level - 1);
            }
            let start: u64 = idx * FANOUT;
            let limit: u64 = if start > len || len - start < FANOUT {
                len
            } else {
                start + FANOUT
            };
            assert(limit == group_end(*meta, level as int, idx as int));
            match greatest_in_group(meta, &work, level - 1, start, limit) {
                Ok(m) => m,
                Err(e) => {
                    proof {
                        lemma_raised_error(*meta, v, leaf, new_class, level + 1, levels as int);
                    }
                    return Err(e);
                },
            }
        };
        match set_entry(meta, &work, level, idx, value) {
            Err(e) => {
                return Err(e);
            },
            Ok((pid, page)) => {
                let ghost bytes = bytes_view(page);
                store_page(&mut work, pid, page.clone());
                writes.push((pid, page));
                proof {
                    assert(writes_view(writes@) =~= before.push((pid, bytes)));
                    assert forall|id: u64| #[trigger] page_views(work@).contains_key(id) implies page_views(
                        work@,
                    )[id].len() == PAGE_SIZE by {
                        if id != pid {
                            assert(wv.contains_key(id));
                        } else if wv.contains_key(pid) {
                            assert(wv[pid].len() == PAGE_SIZE);
                        }
                    }
                }
            },
        }
        level += 1;
    }
    Ok(writes)
}

proof fn lemma_raised_error(
    meta: FsmMeta,
    pages: Map<u64, Seq<u8>>,
    leaf: int,
    class: u8,
    i: int,
    n: int,
)
    requires
        0 <= i <= n,
        raised(meta, pages, leaf, class, i) is Err,
    ensures
        raised(meta, pages, leaf, class, n) == raised(meta, pages, leaf, class, i),
    decreases n,
{
    if i < n {
        lemma_raised_error(meta, pages, leaf, class, i, n - 1);
    }
}

/// No two levels share a page.
pub open spec fn levels_apart(meta: FsmMeta) -> bool {
    forall|a: int, b: int|
        0 <= a < meta.level_count && 0 <= b < meta.level_count && a != b ==> {
            ||| #[trigger] meta.level_base@[a] + level_pages(meta.leaf_count as int, a)
                <= #[trigger] meta.level_base@[b]
            ||| meta.level_base@[b] + level_pages(meta.leaf_count as int, b) <= meta.level_base@[a]
        }
}

/// Setting an entry changes that entry alone.
proof fn lemma_set_one(
    meta: FsmMeta,
    pages: Map<u64, Seq<u8>>,
    level: int,
    idx: int,
    value: u8,
    l: int,
    i: int,
)
    requires
        levels_fit(meta),
        levels_apart(meta),
        whole_pages(pages),
        0 <= level < meta.level_count,
        0 <= idx < level_len_spec(meta.leaf_count as int, level),
        0 <= l < meta.level_count,
        0 <= i < level_len_spec(meta.leaf_count as int, l),
    ensures
        ({
            let after = pages.insert(
                entry_page(meta, level, idx) as u64,
                entry_set(meta, pages, level, idx, value),
            );
            &&& whole_pages(after)
            &&& class_at(meta, after, level, idx) == Some(value)
            &&& (l != level || i != idx) && class_at(meta, pages, l, i) is Some ==> class_at(
                meta,
                after,
                l,
                i,
            ) == class_at(meta, pages, l, i)
        }),
{
    lemma_entry_page(meta, level, idx);
    lemma_entry_page(meta, l, i);
    let pid = entry_page(meta, level, idx) as u64;
    let page = entry_set(meta, pages, level, idx, value);
    let after = pages.insert(pid, page);
    assert(page.len() == PAGE_SIZE);
    assert forall|id: u64| #[trigger] after.contains_key(id) implies after[id].len()
        == PAGE_SIZE by {
        if id != pid {
            assert(pages.contains_key(id));
        }
    }
    if l == level && i != idx {
        if entry_page(meta, l, i) == pid {
            assert(i / 16384 == idx / 16384);
            assert(i % 16384 != idx % 16384);
        }
    } else if l != level {
        assert(meta.level_base@[l] + level_pages(meta.leaf_count as int, l)
            <= meta.level_base@[level] || meta.level_base@[level] + level_pages(
            meta.leaf_count as int,
            level,
        ) <= meta.level_base@[l]);
    }
}

/// All entries can be read.
pub open spec fn all_there(meta: FsmMeta, pages: Map<u64, Seq<u8>>) -> bool {
    forall|l: int, i: int|
        0 <= l < meta.level_count && 0 <= i < level_len_spec(meta.leaf_count as int, l)
            ==> #[trigger] class_at(meta, pages, l, i) is Some
}

/// Every entry above level 0 is the greatest class in its group but, on level
/// `n`, the ancestor of the leaf.
pub open spec fn ok_but(meta: FsmMeta, pages: Map<u64, Seq<u8>>, leaf: int, n: int) -> bool {
    forall|l: int, i: int|
        0 < l < meta.level_count && 0 <= i < level_len_spec(meta.leaf_count as int, l) && !(l == n
            && i == ancestor(leaf, n)) ==> #[trigger] is_group_max(meta, pages, l, i)
}

proof fn lemma_greatest(meta: FsmMeta, pages: Map<u64, Seq<u8>>, level: int, from: int, to: int)
    requires
        from < to,
        forall|j: int| from <= j < to ==> #[trigger] class_at(meta, pages, level, j) is Some,
    ensures
        greatest(meta, pages, level, from, to) is Ok,
        forall|j: int|
            from <= j < to ==> (#[trigger] class_at(meta, pages, level, j))->0 <= greatest(
                meta,
                pages,
                level,
                from,
                to,
            )->Ok_0,
        exists|j: int|
            from <= j < to && #[trigger] class_at(meta, pages, level, j) == Some(
                greatest(meta, pages, level, from, to)->Ok_0,
            ),
    decreases to - from,
{
    assert(class_at(meta, pages, level, to - 1) is Some);
    if from < to - 1 {
        lemma_greatest(meta, pages, level, from, to - 1);
        let j = choose|j: int|
            from <= j < to - 1 && #[trigger] class_at(meta, pages, level, j) == Some(
                greatest(meta, pages, level, from, to - 1)->Ok_0,
            );
        assert(class_at(meta, pages, level, j) is Some);
    } else {
        assert(greatest(meta, pages, level, from, from) == Ok::<u8, int>(0));
    }
}

/// The group of an entry lies in the level below.
proof fn lemma_group_range(meta: FsmMeta, level: int, idx: int)
    requires
        0 < level,
        0 <= idx < level_len_spec(meta.leaf_count as int, level),
    ensures
        0 <= idx * FANOUT < group_end(meta, level, idx) <= level_len_spec(
            meta.leaf_count as int,
            level - 1,
        ),
{
    let n = level_len_spec(meta.leaf_count as int, level - 1);
    assert(0 <= idx * 16384 < n) by (nonlinear_arith)
        requires
            0 <= idx < (n + 16384 - 1) / 16384,
    ;
}

/// One group lies apart from another.
proof fn lemma_group_of(meta: FsmMeta, leaf: int, level: int, i: int, j: int)
    requires
        0 < level,
        i * FANOUT <= j < group_end(meta, level, i),
        j == ancestor(leaf, level - 1),
    ensures
        i == ancestor(leaf, level),
{
    assert(j / 16384 == i) by (nonlinear_arith)
        requires
            i * 16384 <= j < i * 16384 + 16384,
    ;
}

proof fn lemma_raise_step(
    meta: FsmMeta,
    pages: Map<u64, Seq<u8>>,
    leaf: int,
    level: int,
    value: u8,
)
    requires
        levels_fit(meta),
        levels_apart(meta),
        whole_pages(pages),
        all_there(meta, pages),
        0 <= leaf < meta.leaf_count,
        0 <= level < meta.level_count,
        ok_but(meta, pages, leaf, level),
        level > 0 ==> greatest(
            meta,
            pages,
            level - 1,
            ancestor(leaf, level) * FANOUT,
            group_end(meta, level, ancestor(leaf, level)),
        ) == Ok::<u8, int>(value),
    ensures
        ({
            let after = pages.insert(
                entry_page(meta, level, ancestor(leaf, level)) as u64,
                entry_set(meta, pages, level, ancestor(leaf, level), value),
            );
            &&& whole_pages(after)
            &&& all_there(meta, after)
            &&& ok_but(meta, after, leaf, level + 1)
            &&& class_at(meta, after, level, ancestor(leaf, level)) == Some(value)
            &&& forall|l: int, i: int|
                0 <= l < meta.level_count && 0 <= i < level_len_spec(meta.leaf_count as int, l) && (
                l != level || i != ancestor(leaf, level)) ==> #[trigger] class_at(
                    meta,
                    after,
                    l,
                    i,
                ) == class_at(meta, pages, l, i)
        }),
{
    let idx = ancestor(leaf, level);
    lemma_ancestor(meta, leaf, level);
    let after = pages.insert(
        entry_page(meta, level, idx) as u64,
        entry_set(meta, pages, level, idx, value),
    );
    lemma_set_one(meta, pages, level, idx, value, level, idx);
    assert forall|l: int, i: int|
        0 <= l < meta.level_count && 0 <= i < level_len_spec(meta.leaf_count as int, l) && (l
            != level || i != idx) implies #[trigger] class_at(meta, after, l, i) == class_at(
        meta,
        pages,
        l,
        i,
    ) by {
        assert(class_at(meta, pages, l, i) is Some);
        lemma_set_one(meta, pages, level, idx, value, l, i);
    }
    assert forall|l: int, i: int|
        0 <= l < meta.level_count && 0 <= i < level_len_spec(
            meta.leaf_count as int,
            l,
        ) implies #[trigger] class_at(meta, after, l, i) is Some by {
        assert(class_at(meta, pages, l, i) is Some);
    }
    assert forall|l: int, i: int|
        0 < l < meta.level_count && 0 <= i < level_len_spec(meta.leaf_count as int, l) && !(l
            == level + 1 && i == ancestor(leaf, level + 1)) implies #[trigger] is_group_max(
        meta,
        after,
        l,
        i,
    ) by {
        lemma_group_range(meta, l, i);
        let from = i * FANOUT;
        let to = group_end(meta, l, i);
        if l == level && i == idx {
            assert forall|j: int| from <= j < to implies #[trigger] class_at(
                meta,
                pages,
                level - 1,
                j,
            ) is Some by {}
            lemma_greatest(meta, pages, level - 1, from, to);
            assert forall|j: int| from <= j < to implies #[trigger] class_at(meta, after, l - 1, j)
                == class_at(meta, pages, l - 1, j) by {}
            let w = choose|j: int|
                from <= j < to && #[trigger] class_at(meta, pages, l - 1, j) == Some(value);
            assert(class_at(meta, after, l - 1, w) == class_at(meta, after, l, i));
        } else {
            assert(is_group_max(meta, pages, l, i));
            assert(class_at(meta, after, l, i) == class_at(meta, pages, l, i));
            assert forall|j: int| from <= j < to implies #[trigger] class_at(meta, after, l - 1, j)
                == class_at(meta, pages, l - 1, j) by {
                if l - 1 == level && j == idx {
                    lemma_group_of(meta, leaf, l, i, j);
                }
            }
            let w = choose|j: int|
                from <= j < to && #[trigger] class_at(meta, pages, l - 1, j) == class_at(
                    meta,
                    pages,
                    l,
                    i,
                );
            assert(class_at(meta, after, l - 1, w) == class_at(meta, after, l, i));
            assert forall|j: int| from <= j < to implies (#[trigger] class_at(
                meta,
                after,
                l - 1,
                j,
            ) matches Some(c) && c <= class_at(meta, after, l, i)->0) by {
                assert(class_at(meta, pages, l - 1, j) is Some);
            }
        }
    }
}

proof fn lemma_raised(
    meta: FsmMeta,
    pages: Map<u64, Seq<u8>>,
    leaf: int,
    class: u8,
    n: int,
)
    requires
        map_ok(meta, pages),
        levels_apart(meta),
        whole_pages(pages),
        all_there(meta, pages),
        0 <= leaf < meta.leaf_count,
        0 < n <= meta.level_count,
    ensures
        raised(meta, pages, leaf, class, n) matches Ok((after, _)) && whole_pages(after)
            && all_there(meta, after) && ok_but(meta, after, leaf, n) && forall|i: int|
            0 <= i < meta.leaf_count ==> #[trigger] class_at(meta, after, 0, i) == if i == leaf {
                Some(class)
            } else {
                class_at(meta, pages, 0, i)
            },
    decreases n,
{
    let level = n - 1;
    let idx = ancestor(leaf, level);
    if level == 0 {
        assert(raised(meta, pages, leaf, class, 0) == Ok::<
            (Map<u64, Seq<u8>>, Seq<(u64, Seq<u8>)>),
            int,
        >((pages, seq![])));
        lemma_raise_step(meta, pages, leaf, 0, class);
    } else {
        lemma_raised(meta, pages, leaf, class, level);
        let before = raised(meta, pages, leaf, class, level)->Ok_0.0;
        lemma_ancestor(meta, leaf, level);
        lemma_group_range(meta, level, idx);
        let from = idx * FANOUT;
        let to = group_end(meta, level, idx);
        assert forall|j: int| from <= j < to implies #[trigger] class_at(
            meta,
            before,
            level - 1,
            j,
        ) is Some by {}
        lemma_greatest(meta, before, level - 1, from, to);
        let value = greatest(meta, before, level - 1, from, to)->Ok_0;
        lemma_raise_step(meta, before, leaf, level, value);
        let after = raised(meta, pages, leaf, class, n)->Ok_0.0;
        assert forall|i: int| 0 <= i < meta.leaf_count implies #[trigger] class_at(
            meta,
            after,
            0,
            i,
        ) == if i == leaf {
            Some(class)
        } else {
            class_at(meta, pages, 0, i)
        } by {
            assert(class_at(meta, after, 0, i) == class_at(meta, before, 0, i));
        }
    }
}

/// Setting the class of one data page keeps a map in order and changes the
/// class of no other data page.
pub proof fn law_update_keeps_map(meta: FsmMeta, pages: Map<u64, Seq<u8>>, leaf: int, class: u8)
    requires
        map_ok(meta, pages),
        levels_apart(meta),
        whole_pages(pages),
        0 <= leaf < meta.leaf_count,
    ensures
        raised(meta, pages, leaf, class, meta.level_count as int) matches Ok((after, _)) && map_ok(
            meta,
            after,
        ) && forall|i: int|
            0 <= i < meta.leaf_count ==> #[trigger] class_at(meta, after, 0, i) == if i == leaf {
                Some(class)
            } else {
                class_at(meta, pages, 0, i)
            },
{
    assert forall|l: int, i: int|
        0 <= l < meta.level_count && 0 <= i < level_len_spec(
            meta.leaf_count as int,
            l,
        ) implies #[trigger] class_at(meta, pages, l, i) is Some by {
        if l > 0 {
            assert(is_group_max(meta, pages, l, i));
        }
    }
    lemma_raised(meta, pages, leaf, class, meta.level_count as int);
}

/// A level has just as many entries as groups of 16384 are needed for the level below it,
/// and just as many pages as are needed for its own entries, 16384 on each.
pub proof fn law_groups(leaves: int, level: int)
    requires
        0 <= leaves,
        0 <= level,
    ensures
        level_len_spec(leaves, 0) == leaves,
        0 <= level_len_spec(leaves, level),
        ({
            let n = level_len_spec(leaves, level);
            let up = level_len_spec(leaves, level + 1);
            let pages = level_pages(leaves, level);
            &&& 16384 * up >= n
            &&& 16384 * (up - 1) < n || up == 0
            &&& 16384 * pages >= n
            &&& 16384 * (pages - 1) < n || pages == 0
        }),
        level_len_spec(leaves, level) > 1 ==> level_len_spec(leaves, level + 1) < level_len_spec(
            leaves,
            level,
        ),
    decreases level,
{
    if level > 0 {
        law_groups(leaves, level - 1);
    }
}

/// The levels of a new map lie one behind another: no two share a page.
pub proof fn law_new_levels_are_apart(leaves: int, a: int, b: int)
    requires
        0 <= leaves,
        0 <= a < b,
    ensures
        pages_before(leaves, 0) == 0,
        pages_before(leaves, a) + level_pages(leaves, a) <= pages_before(leaves, b),
        pages_before(leaves, a + 1) == pages_before(leaves, a) + level_pages(leaves, a),
    decreases b,
{
    if a + 1 < b {
        law_new_levels_are_apart(leaves, a, b - 1);
        law_groups(leaves, b - 1);
    }
}

/// The search stops at the first entry whose class is enough: all before it are there, and
/// theirs is not. It finds none only if none of the entries is enough.
pub proof fn law_first_fit(
    meta: FsmMeta,
    pages: Map<u64, Seq<u8>>,
    level: int,
    from: int,
    to: int,
    need: u8,
)
    requires
        from <= to,
    ensures
        match first_fit(meta, pages, level, from, to, need) {
            Ok(Some(i)) => from <= i < to && class_at(meta, pages, level, i) is Some && class_at(
                meta,
                pages,
                level,
                i,
            )->0 >= need && forall|j: int|
                from <= j < i ==> (#[trigger] class_at(meta, pages, level, j) matches Some(c) && c
                    < need),
            Ok(None) => forall|j: int|
                from <= j < to ==> (#[trigger] class_at(meta, pages, level, j) matches Some(c) && c
                    < need),
            Err(_) => exists|j: int|
                from <= j < to && #[trigger] class_at(meta, pages, level, j) is None,
        },
    decreases to - from,
{
    if from < to {
        match class_at(meta, pages, level, from) {
            None => {},
            Some(c) => if c < need {
                law_first_fit(meta, pages, level, from + 1, to, need);
            },
        }
    }
}

/// The greatest class of entries is above none of them that is not there: every entry has
/// at most it, and one has it.
pub proof fn law_greatest_class(
    meta: FsmMeta,
    pages: Map<u64, Seq<u8>>,
    level: int,
    from: int,
    to: int,
)
    requires
        from <= to,
    ensures
        greatest(meta, pages, level, from, to) matches Ok(m) ==> (forall|j: int|
            from <= j < to ==> (#[trigger] class_at(meta, pages, level, j) matches Some(c) && c
                <= m)) && (from < to ==> exists|j: int|
            from <= j < to && #[trigger] class_at(meta, pages, level, j) == Some(m)),
        greatest(meta, pages, level, from, to) is Err ==> exists|j: int|
            from <= j < to && #[trigger] class_at(meta, pages, level, j) is None,
    decreases to - from,
{
    if from < to {
        law_greatest_class(meta, pages, level, from, to - 1);
        match greatest(meta, pages, level, from, to - 1) {
            Err(_) => {
                let j = choose|j: int|
                    from <= j < to - 1 && #[trigger] class_at(meta, pages, level, j) is None;
                assert(from <= j < to && class_at(meta, pages, level, j) is None);
            },
            Ok(m) => match class_at(meta, pages, level, to - 1) {
                None => {},
                Some(c) => {
                    if c <= m && from < to - 1 {
                        let j = choose|j: int|
                            from <= j < to - 1 && #[trigger] class_at(meta, pages, level, j)
                                == Some(m);
                        assert(from <= j < to && class_at(meta, pages, level, j) == Some(m));
                    } else if c <= m {
                        assert(class_at(meta, pages, level, to - 1) == Some(m));
                    } else {
                        assert(class_at(meta, pages, level, to - 1) == Some(c));
                    }
                },
            },
        }
    }
}

/// Setting an entry sets this one and no other entry of its level.
pub proof fn law_entry_is_set(
    meta: FsmMeta,
    pages: Map<u64, Seq<u8>>,
    level: int,
    idx: int,
    value: u8,
    j: int,
)
    requires
        whole_pages(pages),
        0 <= level < 8,
        0 <= idx,
        0 <= j,
        meta.level_base@[level] + idx / 16384 <= u64::MAX,
        meta.level_base@[level] + j / 16384 <= u64::MAX,
        pages.contains_key((meta.level_base@[level] + idx / 16384) as u64),
    ensures
        ({
            let pid = (meta.level_base@[level] + idx / 16384) as u64;
            let after = pages.insert(pid, entry_set(meta, pages, level, idx, value));
            class_at(meta, after, level, j) == (if j == idx {
                Some(value)
            } else {
                class_at(meta, pages, level, j)
            })
        }),
{
}

/// The entry that stands for a leaf on a level is in the group of its entry on the level
/// above; on the lowest level it is the leaf itself.
pub proof fn law_ancestor_is_above(leaf: int, level: int)
    requires
        0 <= leaf,
        0 <= level,
    ensures
        ancestor(leaf, 0) == leaf,
        0 <= ancestor(leaf, level),
        16384 * ancestor(leaf, level + 1) <= ancestor(leaf, level) < 16384 * ancestor(
            leaf,
            level + 1,
        ) + 16384,
    decreases level,
{
    if level > 0 {
        law_ancestor_is_above(leaf, level - 1);
    }
}

/// A map has just as many levels as it takes to come to one entry, at most 8.
pub proof fn law_level_count(leaves: int, a: int, b: int)
    requires
        is_level_count(leaves, a),
        is_level_count(leaves, b),
    ensures
        a == b,
        1 <= a <= 8,
        a < 8 ==> level_len_spec(leaves, a - 1) <= 1,
        a > 1 ==> level_len_spec(leaves, a - 2) > 1,
{
    if a < b {
        assert(level_len_spec(leaves, a - 1) > 1);
    }
    if b < a {
        assert(level_len_spec(leaves, b - 1) > 1);
    }
}

/// A map that grows keeps its classes where they are: its levels stay at their pages, and
/// its new ones lie behind all pages that it had.
pub proof fn law_growth_keeps_levels(
    meta: FsmMeta,
    desired: int,
    n: int,
    m: FsmMeta,
    writes: Seq<(u64, Seq<u8>)>,
    l: int,
)
    requires
        is_grown(meta, desired, n, m, writes),
        meta.leaf_count <= desired,
        0 <= l < 8,
        0 <= n <= 8,
        meta.level_count <= 8,
    ensures
        m.leaf_count == desired,
        m.data_base == meta.data_base,
        l < meta.level_count ==> m.level_base@[l] == meta.level_base@[l],
        meta.level_count <= l < n ==> m.level_base@[l] >= meta.next_fsm_page_id,
        m.next_fsm_page_id >= meta.next_fsm_page_id,
        l < m.level_count ==> m.next_fsm_page_id >= m.level_base@[l] + level_pages(desired, l),
{
    assert(m.level_base@[l] == grown_base(meta, desired, n, l));
    if meta.level_count <= l < n && meta.level_count < l {
        law_new_levels_are_apart(desired, meta.level_count as int, l);
        law_groups(desired, meta.level_count as int);
    }
    lemma_levels_end(
        meta.next_fsm_page_id as int,
        m.level_base@,
        desired,
        m.level_count as int,
        l,
    );
}

proof fn lemma_levels_end(at_least: int, bases: Seq<u64>, desired: int, n: int, l: int)
    requires
        0 <= n,
    ensures
        levels_end(at_least, bases, desired, n) >= at_least,
        0 <= l < n ==> levels_end(at_least, bases, desired, n) >= bases[l] + level_pages(desired, l),
    decreases n,
{
    if n > 0 {
        lemma_levels_end(at_least, bases, desired, n - 1, l);
    }
}

} // verus!
