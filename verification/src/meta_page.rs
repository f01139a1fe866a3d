//! The page that says which page ids are free and where undo history begins.
//!
//! ```text
//! 0..8    magic                 8..12   version
//! 12..20  root page id          20..28  next tree page id
//! 28..36  next data page id     36..44  next undo page id
//! 44..48  number of free undo pages, then their ids, at most 1024
//! 8240..8248  first segment of the undo history
//! 8248..8256  last segment of the undo history
//! ```
use vstd::prelude::*;

use crate::common::{bytes_view, io_error, is_io_error, page_from_vec, Error, IoErrorKind, Page,
    PageId, Result, PAGE_SIZE};
use crate::layout::{bytes_eq, get_u32, get_u64, le8, set_bytes, set_u32, set_u64, splice, u32_at,
    u64_at, zeroed};
use crate::text::{dec, join_num};

verus! {

pub const META_PAGE_ID: PageId = 0;

pub const META_VERSION: u32 = 3;

/// Most free undo pages that the page can list.
pub const UNDO_FREE_CAP: usize = 1024;

pub const OFF_UNDO_FREE_LEN: usize = 44;

pub const OFF_UNDO_FREE_IDS: usize = 48;

pub const OFF_UNDO_HISTORY_HEAD: usize = 8240;

pub const OFF_UNDO_HISTORY_TAIL: usize = 8248;

#[derive(Debug, Clone, PartialEq, Eq)]
pub struct MetaPage {
    pub root_page_id: PageId,
    pub next_bptree_page_id: PageId,
    pub next_data_page_id: PageId,
    pub next_undo_page_id: PageId,
    pub undo_free: Vec<PageId>,
    pub undo_history_head: PageId,
    pub undo_history_tail: PageId,
}

/// What the page says.
#[verifier::ext_equal]
pub struct MetaFields {
    pub root_page_id: u64,
    pub next_bptree_page_id: u64,
    pub next_data_page_id: u64,
    pub next_undo_page_id: u64,
    pub undo_free: Seq<u64>,
    pub undo_history_head: u64,
    pub undo_history_tail: u64,
}

impl View for MetaPage {
    type V = MetaFields;

    open spec fn view(&self) -> MetaFields {
        MetaFields {
            root_page_id: self.root_page_id,
            next_bptree_page_id: self.next_bptree_page_id,
            next_data_page_id: self.next_data_page_id,
            next_undo_page_id: self.next_undo_page_id,
            undo_free: self.undo_free@,
            undo_history_head: self.undo_history_head,
            undo_history_tail: self.undo_history_tail,
        }
    }
}

/// `SKVMETA` and a zero byte.
pub open spec fn meta_magic() -> Seq<u8> {
    seq![83u8, 75, 86, 77, 69, 84, 65, 0]
}

/// Free undo pages that the page lists.
pub open spec fn listed_free(m: MetaFields) -> int {
    if m.undo_free.len() < UNDO_FREE_CAP {
        m.undo_free.len() as int
    } else {
        UNDO_FREE_CAP as int
    }
}

/// `s` is the page that says `m`; every byte is determined.
pub open spec fn is_meta_page(s: Seq<u8>, m: MetaFields) -> bool {
    &&& s.len() == PAGE_SIZE
    &&& s.subrange(0, 8) == meta_magic()
    &&& u32_at(s, 8) == META_VERSION
    &&& u64_at(s, 12) == m.root_page_id
    &&& u64_at(s, 20) == m.next_bptree_page_id
    &&& u64_at(s, 28) == m.next_data_page_id
    &&& u64_at(s, 36) == m.next_undo_page_id
    &&& u32_at(s, OFF_UNDO_FREE_LEN as int) == listed_free(m)
    &&& forall|i: int| 0 <= i < listed_free(m) ==> #[trigger] free_id_at(s, i) == m.undo_free[i]
    &&& forall|j: int|
        OFF_UNDO_FREE_IDS + 8 * listed_free(m) <= j < OFF_UNDO_HISTORY_HEAD ==> #[trigger] s[j] == 0
    &&& u64_at(s, OFF_UNDO_HISTORY_HEAD as int) == m.undo_history_head
    &&& u64_at(s, OFF_UNDO_HISTORY_TAIL as int) == m.undo_history_tail
    &&& forall|j: int| OFF_UNDO_HISTORY_TAIL + 8 <= j < PAGE_SIZE ==> #[trigger] s[j] == 0
}

/// Place `i` of the list of free undo pages.
pub open spec fn free_id_at(s: Seq<u8>, i: int) -> int {
    u64_at(s, OFF_UNDO_FREE_IDS + 8 * i)
}

/// The free undo pages among the first `n` places; a zero is no page.
pub open spec fn free_ids(s: Seq<u8>, n: int) -> Seq<u64>
    decreases n,
{
    if n <= 0 {
        seq![]
    } else if free_id_at(s, n - 1) == 0 {
        free_ids(s, n - 1)
    } else {
        free_ids(s, n - 1).push(free_id_at(s, n - 1) as u64)
    }
}

/// Places of the list that are read.
pub open spec fn free_places(s: Seq<u8>) -> int {
    if u32_at(s, OFF_UNDO_FREE_LEN as int) < UNDO_FREE_CAP {
        u32_at(s, OFF_UNDO_FREE_LEN as int)
    } else {
        UNDO_FREE_CAP as int
    }
}

/// What a page says.
pub open spec fn meta_of(s: Seq<u8>) -> MetaFields {
    MetaFields {
        root_page_id: u64_at(s, 12) as u64,
        next_bptree_page_id: u64_at(s, 20) as u64,
        next_data_page_id: u64_at(s, 28) as u64,
        next_undo_page_id: u64_at(s, 36) as u64,
        undo_free: free_ids(s, free_places(s)),
        undo_history_head: u64_at(s, OFF_UNDO_HISTORY_HEAD as int) as u64,
        undo_history_tail: u64_at(s, OFF_UNDO_HISTORY_TAIL as int) as u64,
    }
}

/// The page can be decoded.
pub open spec fn is_meta(s: Seq<u8>) -> bool {
    s.len() == PAGE_SIZE && s.subrange(0, 8) == meta_magic() && u32_at(s, 8) == META_VERSION
}

/// The error of a page that cannot be decoded.
pub open spec fn not_meta<T>(s: Seq<u8>, r: Result<T>) -> bool {
    if s.len() != PAGE_SIZE {
        r matches Err(Error::InvalidPageSize(a, b)) && a == s.len() && b == PAGE_SIZE
    } else if s.subrange(0, 8) != meta_magic() {
        r matches Err(e) && is_io_error(e, IoErrorKind::InvalidData, "invalid meta page magic"@)
    } else {
        r matches Err(e) && is_io_error(
            e,
            IoErrorKind::InvalidData,
            "unsupported meta version: "@ + dec(u32_at(s, 8)),
        )
    }
}

proof fn lemma_splice8(s: Seq<u8>, o: int, v: u64)
    requires
        0 <= o,
        o + 8 <= s.len(),
    ensures
        forall|j: int|
            0 <= j < s.len() && !(o <= j < o + 8) ==> #[trigger] splice(s, o, le8(v as int))[j]
                == s[j],
{
}

impl MetaPage {
    fn head_buf(&self) -> (p: Vec<u8>)
        ensures
            p@.len() == PAGE_SIZE,
            p@.subrange(0, 8) == meta_magic(),
            u32_at(p@, 8) == META_VERSION,
            u64_at(p@, 12) == self.root_page_id,
            u64_at(p@, 20) == self.next_bptree_page_id,
            u64_at(p@, 28) == self.next_data_page_id,
            u64_at(p@, 36) == self.next_undo_page_id,
            forall|j: int| 44 <= j < PAGE_SIZE ==> #[trigger] p@[j] == 0,
    {
        let mut p: Vec<u8> = zeroed(PAGE_SIZE);
        let magic: [u8; 8] = [83u8, 75, 86, 77, 69, 84, 65, 0];
        assert(magic@ =~= meta_magic());
        set_bytes(&mut p, 0, magic.as_slice());
        set_u32(&mut p, 8, META_VERSION);
        set_u64(&mut p, 12, self.root_page_id);
        set_u64(&mut p, 20, self.next_bptree_page_id);
        set_u64(&mut p, 28, self.next_data_page_id);
        set_u64(&mut p, 36, self.next_undo_page_id);
        assert(p@.subrange(0, 8) =~= meta_magic());
        p
    }

    /// The page that says this.
    pub fn encode(&self) -> (r: Page)
        ensures
            is_meta_page(bytes_view(r), self@),
    {
        let ghost m = self@;
        let mut p: Vec<u8> = self.head_buf();
        let total: usize = self.undo_free.len();
        let n: usize = if total < UNDO_FREE_CAP {
            total
        } else {
            UNDO_FREE_CAP
        };
        let ghost h = p@;
        set_u32(&mut p, OFF_UNDO_FREE_LEN, n as u32);
        let ghost q0 = p@;
        assert(p@.subrange(0, 44) =~= h.subrange(0, 44));
        let mut i: usize = 0;
        while i < n
            invariant
                m == self@,
                n == listed_free(m),
                n <= UNDO_FREE_CAP,
                n <= self.undo_free@.len(),
                i <= n,
                p@.len() == PAGE_SIZE,
                q0.len() == PAGE_SIZE,
                forall|j: int| 0 <= j < 48 ==> #[trigger] p@[j] == q0[j],
                forall|k: int| 0 <= k < i ==> #[trigger] free_id_at(p@, k) == m.undo_free[k],
                forall|j: int| 48 + 8 * i <= j < PAGE_SIZE ==> #[trigger] p@[j] == 0,
            decreases n - i,
        {
            let ghost before = p@;
            let o: usize = OFF_UNDO_FREE_IDS + 8 * i;
            set_u64(&mut p, o, self.undo_free[i]);
            proof {
                lemma_splice8(before, o as int, self.undo_free@[i as int]);
                assert forall|k: int| 0 <= k < i + 1 implies #[trigger] free_id_at(p@, k)
                    == m.undo_free[k] by {
                    if k < i {
                        assert(free_id_at(before, k) == m.undo_free[k]);
                        let b = OFF_UNDO_FREE_IDS + 8 * k;
                        assert(p@[b] == before[b] && p@[b + 1] == before[b + 1] && p@[b + 2]
                            == before[b + 2] && p@[b + 3] == before[b + 3] && p@[b + 4]
                            == before[b + 4] && p@[b + 5] == before[b + 5] && p@[b + 6]
                            == before[b + 6] && p@[b + 7] == before[b + 7]);
                    }
                }
            }
            i += 1;
        }
        let ghost q1 = p@;
        set_u64(&mut p, OFF_UNDO_HISTORY_HEAD, self.undo_history_head);
        let ghost q2 = p@;
        set_u64(&mut p, OFF_UNDO_HISTORY_TAIL, self.undo_history_tail);
        proof {
            lemma_splice8(q1, OFF_UNDO_HISTORY_HEAD as int, self.undo_history_head);
            lemma_splice8(q2, OFF_UNDO_HISTORY_TAIL as int, self.undo_history_tail);
            let s = p@;
            assert(forall|j: int| 0 <= j < OFF_UNDO_HISTORY_HEAD ==> #[trigger] s[j] == q1[j]);
            assert(forall|j: int| 0 <= j < 44 ==> #[trigger] s[j] == h[j]) by {
                assert forall|j: int| 0 <= j < 44 implies #[trigger] s[j] == h[j] by {
                    assert(s[j] == q1[j] && q1[j] == q0[j]);
                    assert(q0.subrange(0, 44)[j] == h.subrange(0, 44)[j]);
                }
            }
            assert(s.subrange(0, 8) =~= h.subrange(0, 8));
            assert(s[44] == q0[44] && s[45] == q0[45] && s[46] == q0[46] && s[47] == q0[47]);
            assert forall|k: int| 0 <= k < n implies #[trigger] free_id_at(s, k)
                == m.undo_free[k] by {
                assert(free_id_at(q1, k) == m.undo_free[k]);
                let b = OFF_UNDO_FREE_IDS + 8 * k;
                assert(s[b] == q1[b] && s[b + 1] == q1[b + 1] && s[b + 2] == q1[b + 2] && s[b + 3]
                    == q1[b + 3] && s[b + 4] == q1[b + 4] && s[b + 5] == q1[b + 5] && s[b + 6]
                    == q1[b + 6] && s[b + 7] == q1[b + 7]);
            }
            let b = OFF_UNDO_HISTORY_HEAD as int;
            assert(s[b] == q2[b] && s[b + 1] == q2[b + 1] && s[b + 2] == q2[b + 2] && s[b + 3]
                == q2[b + 3] && s[b + 4] == q2[b + 4] && s[b + 5] == q2[b + 5] && s[b + 6]
                == q2[b + 6] && s[b + 7] == q2[b + 7]);
        }
        page_from_vec(p)
    }

    /// What a page says.
    pub fn decode(page: &[u8]) -> (r: Result<MetaPage>)
        ensures
            if is_meta(page@) {
                r matches Ok(m) && m@ == meta_of(page@)
            } else {
                not_meta(page@, r)
            },
    {
        if page.len() != PAGE_SIZE {
            return Err(Error::InvalidPageSize(page.len(), PAGE_SIZE));
        }
        let magic: [u8; 8] = [83u8, 75, 86, 77, 69, 84, 65, 0];
        assert(magic@ =~= meta_magic());
        if !bytes_eq(vstd::slice::slice_subrange(page, 0, 8), magic.as_slice()) {
            return Err(io_error(IoErrorKind::InvalidData, "invalid meta page magic"));
        }
        let ver: u32 = get_u32(page, 8);
        if ver != META_VERSION {
            let m = join_num("unsupported meta version: ", ver as u64);
            return Err(io_error(IoErrorKind::InvalidData, m.as_str()));
        }
        let count: usize = get_u32(page, OFF_UNDO_FREE_LEN) as usize;
        let n: usize = if count < UNDO_FREE_CAP {
            count
        } else {
            UNDO_FREE_CAP
        };
        let mut undo_free: Vec<PageId> = Vec::new();
        let mut i: usize = 0;
        while i < n
            invariant
                page@.len() == PAGE_SIZE,
                n <= UNDO_FREE_CAP,
                i <= n,
                undo_free@ == free_ids(page@, i as int),
            decreases n - i,
        {
            let pid: u64 = get_u64(page, OFF_UNDO_FREE_IDS + 8 * i);
            if pid != 0 {
                undo_free.push(pid);
            }
            i += 1;
        }
        Ok(
            MetaPage {
                root_page_id: get_u64(page, 12),
                next_bptree_page_id: get_u64(page, 20),
                next_data_page_id: get_u64(page, 28),
                next_undo_page_id: get_u64(page, 36),
                undo_free,
                undo_history_head: get_u64(page, OFF_UNDO_HISTORY_HEAD),
                undo_history_tail: get_u64(page, OFF_UNDO_HISTORY_TAIL),
            },
        )
    }

    /// A copy of the meta page.
    pub fn duplicate(&self) -> (r: MetaPage)
        ensures
            r@ == self@,
    {
        MetaPage {
            root_page_id: self.root_page_id,
            next_bptree_page_id: self.next_bptree_page_id,
            next_data_page_id: self.next_data_page_id,
            next_undo_page_id: self.next_undo_page_id,
            undo_free: vstd::slice::slice_to_vec(self.undo_free.as_slice()),
            undo_history_head: self.undo_history_head,
            undo_history_tail: self.undo_history_tail,
        }
    }

    /// Takes the last of the free undo pages.
    pub fn pop_free_undo(&mut self) -> (r: Option<PageId>)
        ensures
            if old(self).undo_free@.len() == 0 {
                r is None && final(self)@ == old(self)@
            } else {
                &&& r == Some(old(self).undo_free@.last())
                &&& final(self)@ == (MetaFields {
                    undo_free: old(self).undo_free@.drop_last(),
                    ..old(self)@
                })
            },
    {
        self.undo_free.pop()
    }

    /// Adds a free undo page, unless the list is full.
    pub fn push_free_undo(&mut self, pid: PageId)
        ensures
            final(self)@ == with_free_undo(old(self)@, pid),
    {
        if self.undo_free.len() < UNDO_FREE_CAP {
            self.undo_free.push(pid);
        }
    }
}

/// One more free undo page, unless the list is full.
pub open spec fn with_free_undo(m: MetaFields, pid: u64) -> MetaFields {
    if m.undo_free.len() < UNDO_FREE_CAP {
        MetaFields { undo_free: m.undo_free.push(pid), ..m }
    } else {
        m
    }
}

proof fn lemma_free_ids(s: Seq<u8>, m: MetaFields, n: int)
    requires
        is_meta_page(s, m),
        0 <= n <= listed_free(m),
        forall|i: int| 0 <= i < m.undo_free.len() ==> #[trigger] m.undo_free[i] != 0,
    ensures
        free_ids(s, n) == m.undo_free.take(n),
    decreases n,
{
    if n > 0 {
        lemma_free_ids(s, m, n - 1);
        assert(free_id_at(s, n - 1) == m.undo_free[n - 1]);
        assert(m.undo_free[n - 1] != 0);
        assert(m.undo_free.take(n) =~= m.undo_free.take(n - 1).push(m.undo_free[n - 1]));
    } else {
        assert(m.undo_free.take(0) =~= seq![]);
    }
}

/// A page that was encoded is decoded to what it said. Page zero is never a
/// free undo page, and no more than 1024 of them are listed.
pub proof fn law_meta_round_trip(s: Seq<u8>, m: MetaFields)
    requires
        is_meta_page(s, m),
        m.undo_free.len() <= UNDO_FREE_CAP,
        forall|i: int| 0 <= i < m.undo_free.len() ==> #[trigger] m.undo_free[i] != 0,
    ensures
        is_meta(s),
        meta_of(s) == m,
{
    lemma_free_ids(s, m, listed_free(m));
    assert(m.undo_free.take(m.undo_free.len() as int) =~= m.undo_free);
    assert(meta_of(s) =~= m);
}

/// A page that is set free is the next one to be taken, as long as fewer than 1024 are
/// free; otherwise it is not listed. Nothing else changes.
pub proof fn law_freed_page_is_taken_next(m: MetaFields, pid: u64)
    ensures
        m.undo_free.len() < 1024 ==> with_free_undo(m, pid).undo_free.last() == pid
            && with_free_undo(m, pid).undo_free.drop_last() == m.undo_free,
        m.undo_free.len() >= 1024 ==> with_free_undo(m, pid).undo_free == m.undo_free,
        with_free_undo(m, pid).root_page_id == m.root_page_id,
        with_free_undo(m, pid).next_bptree_page_id == m.next_bptree_page_id,
        with_free_undo(m, pid).next_data_page_id == m.next_data_page_id,
        with_free_undo(m, pid).next_undo_page_id == m.next_undo_page_id,
        with_free_undo(m, pid).undo_history_head == m.undo_history_head,
        with_free_undo(m, pid).undo_history_tail == m.undo_history_tail,
{
    assert(m.undo_free.push(pid).drop_last() =~= m.undo_free);
}

} // verus!
