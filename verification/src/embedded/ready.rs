//! Questions that a caller asks before it reads, writes or takes back a row, where the
//! pages may have come from elsewhere.
use vstd::prelude::*;

use super::gc::{history_ends, history_finite, pages_end, pages_finite, purgeable};
use super::page_map::find_page;
use super::resolve::{base_ends, base_finite, resolvable, row_in};
use super::txn::{EmbeddedCompute, EmbeddedTxn};
use super::visibility::{row_seen, row_visibility, undo_at, walk_ends, walk_finite,
    Visibility, FLAG_INTENT};
use crate::common::{bytes_view, page_bytes, Page, PageId};
use crate::key_order::is_key;
use crate::key_set::{key_in, KeySet};
use crate::meta_page::{meta_of, MetaPage, META_PAGE_ID};
use crate::page_bptree::chain::MAX_SCAN_LEAF_HOPS;
use crate::undo_pg::{free_end_is_inside, page_next_id, read_record, read_segment_header,
    segment_header_of, slot_is_readable, UndoPtr, SEGMENT_STATE_COMMITTED};

verus! {

/// Undo records of one row that are followed at most.
pub const MAX_CHAIN: u32 = 0xffff_ffff;

/// The undo records that reading a row takes are at most `MAX_CHAIN`.
pub open spec fn short_walk(t: &EmbeddedTxn, c: &EmbeddedCompute, key: Seq<u8>) -> bool {
    c.row(key) matches Some(row) ==> (row_seen(
        row.meta,
        t.undo_txn_id,
        t.read_lsn,
    ) matches Visibility::Undo(p) ==> walk_ends(t.readable(c), p, t.read_lsn, MAX_CHAIN as nat))
}

/// The undo records that taking back the row of a key takes are at most `MAX_CHAIN`.
pub open spec fn short_base(c: &EmbeddedCompute, key: Seq<u8>) -> bool {
    row_in(c.tree.rows(), key) matches Some(row) ==> base_ends(
        c.pages(),
        row.meta.undo_ptr,
        MAX_CHAIN as nat,
    )
}

impl EmbeddedTxn {
    fn peek(&self, compute: &EmbeddedCompute, page_id: PageId) -> (r: Option<Page>)
        ensures
            match r {
                Some(p) => self.readable(compute).contains_key(page_id) && bytes_view(p)
                    == self.readable(compute)[page_id],
                None => !self.readable(compute).contains_key(page_id),
            },
    {
        match find_page(&self.dirty, page_id) {
            Some(p) => {
                return Some(p);
            },
            None => {},
        }
        match find_page(&self.ro_cache, page_id) {
            Some(p) => {
                return Some(p);
            },
            None => {},
        }
        find_page(&compute.page_cache, page_id)
    }

    /// Whether a row can be read.
    pub fn can_read(&self, compute: &EmbeddedCompute, key: &[u8]) -> (r: bool)
        requires
            compute.wf(),
        ensures
            is_key(key@) ==> r == short_walk(self, compute, key@),
            r && is_key(key@) ==> self.row_readable(compute, key@),
    {
        let row = match compute.tree.get(key) {
            Some(row) => row,
            None => {
                return true;
            },
        };
        let p = match row_visibility(&row.meta, self.undo_txn_id, self.read_lsn) {
            Visibility::Undo(p) => p,
            _ => {
                return true;
            },
        };
        let ghost m = self.readable(compute);
        let ghost lsn = self.read_lsn;
        let mut left: u32 = MAX_CHAIN;
        let mut cur: Option<UndoPtr> = p;
        proof {
            if walk_ends(m, p, lsn, MAX_CHAIN as nat) {
                assert(walk_finite(m, p, lsn));
            }
        }
        loop
            invariant
                m == self.readable(compute),
                lsn == self.read_lsn,
                is_key(key@) ==> (compute.row(key@) matches Some(at) && row_seen(
                    at.meta,
                    self.undo_txn_id,
                    lsn,
                ) == Visibility::Undo(p)),
                walk_ends(m, p, lsn, MAX_CHAIN as nat) == walk_ends(m, cur, lsn, left as nat),
            ensures
                cur is None,
                walk_ends(m, p, lsn, MAX_CHAIN as nat) == walk_ends(m, cur, lsn, left as nat),
            decreases left,
        {
            let u = match cur {
                None => break,
                Some(u) => u,
            };
            if left == 0 {
                return false;
            }
            let page = match self.peek(compute, u.page_id) {
                Some(page) => page,
                None => {
                    return true;
                },
            };
            if !slot_is_readable(page_bytes(&page), u.slot_id) {
                return false;
            }
            let rec = match read_record(page_bytes(&page), u.slot_id) {
                Ok(rec) => rec,
                Err(_) => {
                    return true;
                },
            };
            assert(rec@ == undo_at(m, u));
            if (rec.old_flags & FLAG_INTENT) == 0 && rec.old_commit_lsn <= self.read_lsn {
                return true;
            }
            cur = rec.prev;
            left = left - 1;
        }
        true
    }

    /// Whether an undo record can be put down.
    pub fn can_put_undo(&self, compute: &EmbeddedCompute) -> (r: bool)
        ensures
            r == self.undo_ready(compute),
    {
        let meta_page = match find_page(&compute.page_cache, META_PAGE_ID) {
            Some(p) => Some(p),
            None => find_page(&self.dirty, META_PAGE_ID),
        };
        match meta_page {
            Some(p) => match MetaPage::decode(page_bytes(&p)) {
                Ok(meta) => {
                    assert(meta@ == meta_of(self.undo_meta(compute)->0));
                    if meta.next_undo_page_id == u64::MAX {
                        return false;
                    }
                },
                Err(_) => {},
            },
            None => {},
        }
        match self.undo.last_page_id {
            Some(cur) => match self.find_own_page(compute, cur) {
                Some(p) => free_end_is_inside(page_bytes(&p)),
                None => true,
            },
            None => true,
        }
    }
}

/// The pages that hang on `pid` are at most `MAX_CHAIN`.
pub open spec fn short_pages(m: Map<u64, Seq<u8>>, pid: u64) -> bool {
    pages_end(m, pid, MAX_CHAIN as nat)
}

/// The segments that can be purged from `head` on are at most `n`, and so short each.
pub open spec fn short_history(m: Map<u64, Seq<u8>>, head: u64, gc_lsn: u64, n: nat) -> bool
    decreases n,
{
    head == 0 || (n > 0 && (purgeable(m, head, gc_lsn) ==> short_pages(
        m,
        segment_header_of(m[head]).first_page_id,
    ) && short_history(m, segment_header_of(m[head]).history_next, gc_lsn, (n - 1) as nat)))
}

proof fn lemma_short_history(m: Map<u64, Seq<u8>>, head: u64, gc_lsn: u64, n: nat)
    requires
        short_history(m, head, gc_lsn, n),
    ensures
        history_ends(m, head, gc_lsn, n),
    decreases n,
{
    if head != 0 && purgeable(m, head, gc_lsn) {
        let h = segment_header_of(m[head]);
        assert(pages_finite(m, h.first_page_id));
        lemma_short_history(m, h.history_next, gc_lsn, (n - 1) as nat);
    }
}

impl EmbeddedCompute {
    fn can_free(&self, pid: PageId) -> (r: bool)
        ensures
            r == short_pages(self.pages(), pid),
    {
        let ghost m = self.pages();
        let mut left: u32 = MAX_CHAIN;
        let mut cur: PageId = pid;
        while cur != 0
            invariant
                m == self.pages(),
                short_pages(m, pid) == pages_end(m, cur, left as nat),
            decreases left,
        {
            if left == 0 {
                return false;
            }
            let page = match find_page(&self.page_cache, cur) {
                Some(p) => p,
                None => {
                    return true;
                },
            };
            cur = match page_next_id(page_bytes(&page)) {
                Ok(x) => x,
                Err(_) => {
                    return true;
                },
            };
            left = left - 1;
        }
        true
    }

    /// Whether the undo history can be purged.
    pub fn can_purge(&self, meta: &MetaPage, gc_lsn: u64) -> (r: bool)
        ensures
            r == short_history(self.pages(), meta.undo_history_head, gc_lsn, MAX_CHAIN as nat),
            r ==> history_finite(self.pages(), meta.undo_history_head, gc_lsn),
    {
        let ghost m = self.pages();
        let ghost first = meta.undo_history_head;
        let mut left: u32 = MAX_CHAIN;
        let mut head: PageId = meta.undo_history_head;
        proof {
            if short_history(m, first, gc_lsn, MAX_CHAIN as nat) {
                lemma_short_history(m, first, gc_lsn, MAX_CHAIN as nat);
            }
        }
        while head != 0
            invariant
                m == self.pages(),
                first == meta.undo_history_head,
                short_history(m, first, gc_lsn, MAX_CHAIN as nat) ==> history_finite(
                    m,
                    first,
                    gc_lsn,
                ),
                short_history(m, first, gc_lsn, MAX_CHAIN as nat) == short_history(
                    m,
                    head,
                    gc_lsn,
                    left as nat,
                ),
            decreases left,
        {
            if left == 0 {
                return false;
            }
            let page = match find_page(&self.page_cache, head) {
                Some(p) => p,
                None => {
                    return true;
                },
            };
            let hdr = match read_segment_header(page_bytes(&page)) {
                Ok(h) => h,
                Err(_) => {
                    return true;
                },
            };
            if hdr.state != SEGMENT_STATE_COMMITTED || hdr.commit_lsn > gc_lsn {
                return true;
            }
            if !self.can_free(hdr.first_page_id) {
                return false;
            }
            head = hdr.history_next;
            left = left - 1;
        }
        true
    }

    fn can_follow(&self, undo: Option<UndoPtr>) -> (r: bool)
        ensures
            r == base_ends(self.pages(), undo, MAX_CHAIN as nat),
    {
        let ghost m = self.pages();
        let mut left: u32 = MAX_CHAIN;
        let mut cur: Option<UndoPtr> = undo;
        loop
            invariant
                m == self.pages(),
                base_ends(m, undo, MAX_CHAIN as nat) == base_ends(m, cur, left as nat),
            ensures
                base_ends(m, undo, MAX_CHAIN as nat),
            decreases left,
        {
            let u = match cur {
                None => break,
                Some(u) => u,
            };
            if left == 0 {
                return false;
            }
            let page = match find_page(&self.page_cache, u.page_id) {
                Some(page) => page,
                None => {
                    return true;
                },
            };
            if !slot_is_readable(page_bytes(&page), u.slot_id) {
                return false;
            }
            let rec = match read_record(page_bytes(&page), u.slot_id) {
                Ok(rec) => rec,
                Err(_) => {
                    return true;
                },
            };
            assert(rec@ == undo_at(m, u));
            if (rec.old_flags & FLAG_INTENT) == 0 {
                return true;
            }
            cur = rec.prev;
            left = left - 1;
        }
        true
    }

    /// Whether the rows of the keys can be taken back.
    pub fn can_resolve(&self, keys: &KeySet) -> (r: bool)
        requires
            self.wf(),
            keys.wf(),
            self.tree.depth() < MAX_SCAN_LEAF_HOPS,
            forall|k: Seq<u8>| #[trigger] keys@.contains(k) ==> is_key(k),
        ensures
            r == (forall|k: Seq<u8>| #[trigger] keys@.contains(k) ==> short_base(self, k)),
            r ==> (forall|k: Seq<u8>| #[trigger]
                keys@.contains(k) ==> resolvable(self.pages(), row_in(self.tree.rows(), k))),
    {
        let ghost ks = keys.keys@;
        let n: usize = keys.keys.len();
        let mut i: usize = 0;
        while i < n
            invariant
                ks == keys.keys@,
                n == ks.len(),
                i <= n,
                self.wf(),
                self.tree.depth() < MAX_SCAN_LEAF_HOPS,
                forall|k: Seq<u8>| #[trigger] keys@.contains(k) ==> is_key(k),
                forall|j: int| 0 <= j < i ==> short_base(self, #[trigger] ks[j]@),
            decreases n - i,
        {
            let ghost k = ks[i as int]@;
            assert(key_in(ks, k));
            assert(keys@.contains(k));
            match self.tree.get(keys.keys[i].as_slice()) {
                Some(row) => {
                    if !self.can_follow(row.meta.undo_ptr) {
                        assert(!short_base(self, k));
                        return false;
                    }
                },
                None => {},
            }
            i += 1;
        }
        assert forall|k: Seq<u8>| #[trigger] keys@.contains(k) implies short_base(self, k)
            && resolvable(self.pages(), row_in(self.tree.rows(), k)) by {
            let j = choose|j: int| 0 <= j < ks.len() && #[trigger] ks[j]@ == k;
            assert(short_base(self, ks[j]@));
            match row_in(self.tree.rows(), k) {
                Some(row) => {
                    assert(base_finite(self.pages(), row.meta.undo_ptr));
                },
                None => {},
            }
        }
        true
    }
}

} // verus!
