//! Pages in memory above the page file: what is cached, what must be written,
//! and what may be dropped.
use vstd::prelude::*;

use crate::common::{page_from_vec, bytes_view, Error, Page, PageId, Result, PAGE_SIZE};
use crate::layout::copy_bytes;
use crate::key_order::lemma_increasing;
use std::collections::BTreeMap;
use vstd::std_specs::btree::{increasing_seq, spec_btree_map_iter};
use vstd::std_specs::iter::IteratorSpec;

verus! {

broadcast use vstd::std_specs::btree::group_btree_axioms;

/// Configuration for periodic checkpoint.
#[derive(Debug, Clone, Copy, PartialEq, Eq, Structural)]
pub struct CheckpointConfig {
    /// Checkpoint interval (default: 60 seconds)
    pub interval_nanos: u128,
    /// Max dirty pages before triggering checkpoint (default: 1000)
    pub max_dirty_pages: usize,
    /// Max dirty bytes before triggering checkpoint (default: 64MB)
    pub max_dirty_bytes: usize,
}

impl Default for CheckpointConfig {
    fn default() -> (r: CheckpointConfig)
        ensures
            r.interval_nanos == 60_000_000_000,
            r.max_dirty_pages == 1000,
            r.max_dirty_bytes == 64 * 1024 * 1024,
    {
        CheckpointConfig {
            interval_nanos: 60_000_000_000,
            max_dirty_pages: 1000,
            max_dirty_bytes: 64 * 1024 * 1024,
        }
    }
}

impl CheckpointConfig {
    /// Short intervals and small limits.
    pub fn for_test() -> (r: CheckpointConfig)
        ensures
            r.interval_nanos == 100_000_000,
            r.max_dirty_pages == 10,
            r.max_dirty_bytes == 64 * 1024,
    {
        CheckpointConfig {
            interval_nanos: 100_000_000,
            max_dirty_pages: 10,
            max_dirty_bytes: 64 * 1024,
        }
    }
}

/// How many pages may stay in memory.
#[derive(Debug, Clone, Copy, PartialEq, Eq, Structural)]
pub struct BufferPoolConfig {
    pub max_pages: usize,
    pub eviction_batch_size: usize,
}

impl Default for BufferPoolConfig {
    fn default() -> (r: BufferPoolConfig)
        ensures
            r.max_pages == 10000,
            r.eviction_batch_size == 100,
    {
        BufferPoolConfig { max_pages: 10000, eviction_batch_size: 100 }
    }
}

impl BufferPoolConfig {
    /// A small pool.
    pub fn for_test() -> (r: BufferPoolConfig)
        ensures
            r.max_pages == 20,
            r.eviction_batch_size == 5,
    {
        BufferPoolConfig { max_pages: 20, eviction_batch_size: 5 }
    }
}

/// A page in memory. `last_accessed` counts the accesses to the store.
#[derive(Debug)]
pub struct BufferPage {
    pub data: Vec<u8>,
    pub dirty: bool,
    pub lsn: u64,
    pub last_accessed: u64,
}

#[derive(Debug, Clone, Copy, PartialEq, Eq, Structural)]
pub struct BufferStats {
    pub total_pages: usize,
    pub dirty_count: usize,
    pub dirty_bytes: usize,
    pub max_lsn: u64,
}

impl Default for BufferStats {
    fn default() -> (r: BufferStats)
        ensures
            r == (BufferStats { total_pages: 0, dirty_count: 0, dirty_bytes: 0, max_lsn: 0 }),
    {
        BufferStats { total_pages: 0, dirty_count: 0, dirty_bytes: 0, max_lsn: 0 }
    }
}

#[derive(Debug, Clone, Copy, PartialEq, Eq, Structural)]
pub struct CacheStats {
    pub hits: u64,
    pub misses: u64,
}

impl Default for CacheStats {
    fn default() -> (r: CacheStats)
        ensures
            r == (CacheStats { hits: 0, misses: 0 }),
    {
        CacheStats { hits: 0, misses: 0 }
    }
}

/// A page to be written to the page file.
#[derive(Debug)]
pub struct DirtyPage {
    pub page_id: PageId,
    pub data: Vec<u8>,
    pub lsn: u64,
}

/// The pages in memory.
#[derive(Debug)]
pub struct PageStore {
    pub pool: BTreeMap<u64, BufferPage>,
    pub clock: u64,
    pub checkpoint_lsn: u64,
    pub max_page_id: PageId,
    pub cache_hits: u64,
    pub cache_misses: u64,
    pub shutdown: bool,
}

pub open spec fn all_zero(s: Seq<u8>) -> bool {
    forall|i: int| 0 <= i < s.len() ==> s[i] == 0
}

fn is_all_zero(s: &[u8]) -> (r: bool)
    ensures
        r == all_zero(s@),
{
    let mut i: usize = 0;
    while i < s.len()
        invariant
            i <= s@.len(),
            forall|j: int| 0 <= j < i ==> s@[j] == 0,
        decreases s@.len() - i,
    {
        if s[i] != 0 {
            return false;
        }
        i += 1;
    }
    true
}

/// Where a page lies in a page file of `file_size` bytes; `None` when the file
/// ends before it does.
pub fn page_file_offset(page_id: PageId, file_size: u64) -> (r: Option<u64>)
    requires
        (page_id + 1) * PAGE_SIZE <= u64::MAX,
    ensures
        match r {
            Some(o) => o == page_id * PAGE_SIZE && o + PAGE_SIZE <= file_size,
            None => page_id * PAGE_SIZE + PAGE_SIZE > file_size,
        },
{
    let offset: u64 = page_id * PAGE_SIZE as u64;
    if offset + PAGE_SIZE as u64 > file_size {
        None
    } else {
        Some(offset)
    }
}

/// The size that a page file must have for a page to be written to it, and where
/// the page is written.
pub fn page_file_write(page_id: PageId, data: &[u8], file_size: u64) -> (r: Result<(u64, u64)>)
    requires
        (page_id + 1) * PAGE_SIZE <= u64::MAX,
    ensures
        if data@.len() != PAGE_SIZE {
            r matches Err(Error::InvalidPageSize(a, b)) && a == data@.len() && b == PAGE_SIZE
        } else {
            &&& r matches Ok((offset, size))
            &&& offset == page_id * PAGE_SIZE
            &&& size == (if offset + PAGE_SIZE > file_size {
                offset + PAGE_SIZE
            } else {
                file_size as int
            })
        },
{
    if data.len() != PAGE_SIZE {
        return Err(Error::InvalidPageSize(data.len(), PAGE_SIZE));
    }
    let offset: u64 = page_id * PAGE_SIZE as u64;
    let required: u64 = offset + PAGE_SIZE as u64;
    if required > file_size {
        Ok((offset, required))
    } else {
        Ok((offset, file_size))
    }
}

/// The page id after which a scan goes on, or `None` when it ends: it has
/// collected `limit` pages or has passed `max_id`.
pub fn next_scan_id(page_id: PageId, max_id: PageId, found: usize, limit: usize) -> (r: Option<
    PageId,
>)
    ensures
        match r {
            Some(p) => found < limit && p == page_id && page_id <= max_id,
            None => found >= limit || page_id > max_id,
        },
{
    if found >= limit || page_id > max_id {
        None
    } else {
        Some(page_id)
    }
}

/// The pool after a page was put in, everything else unchanged.
pub open spec fn placed(
    before: Map<u64, BufferPage>,
    after: Map<u64, BufferPage>,
    id: u64,
    data: Seq<u8>,
    dirty: bool,
    lsn: u64,
    tick: u64,
) -> bool {
    &&& after.contains_key(id)
    &&& after == before.insert(id, after[id])
    &&& after[id].data@ == data
    &&& after[id].dirty == dirty
    &&& after[id].lsn == lsn
    &&& after[id].last_accessed == tick
}

/// Pages with changes that the page file does not have.
pub open spec fn dirty_ids(m: Map<u64, BufferPage>) -> Set<u64> {
    m.dom().filter(|id: u64| m[id].dirty)
}

impl PageStore {
    /// Every page has the size of a page and was accessed before now.
    pub open spec fn wf(&self) -> bool {
        forall|id: u64| #[trigger]
            self.pool@.contains_key(id) ==> self.pool@[id].data@.len() == PAGE_SIZE
                && self.pool@[id].last_accessed < self.clock
    }

    /// A store above a page file of `file_size` bytes, with nothing in memory.
    pub fn open(checkpoint_lsn: u64, file_size: u64) -> (r: PageStore)
        ensures
            r.wf(),
            r.pool@ == Map::<u64, BufferPage>::empty(),
            r.checkpoint_lsn == checkpoint_lsn,
            r.max_page_id == (if file_size / 16384 > 0 {
                file_size / 16384 - 1
            } else {
                0
            }),
            r.cache_hits == 0,
            r.cache_misses == 0,
            !r.shutdown,
    {
        let pages: u64 = file_size / 16384;
        let max_page_id: u64 = if pages > 0 {
            pages - 1
        } else {
            0
        };
        PageStore {
            pool: BTreeMap::new(),
            clock: 0,
            checkpoint_lsn,
            max_page_id,
            cache_hits: 0,
            cache_misses: 0,
            shutdown: false,
        }
    }

    /// The page and its LSN, if the page is in memory.
    pub fn get_with_lsn(&mut self, page_id: PageId) -> (r: Option<(Page, u64)>)
        requires
            old(self).wf(),
            old(self).clock < u64::MAX,
        ensures
            final(self).wf(),
            final(self).checkpoint_lsn == old(self).checkpoint_lsn,
            final(self).max_page_id == old(self).max_page_id,
            final(self).cache_misses == old(self).cache_misses,
            final(self).shutdown == old(self).shutdown,
            match r {
                Some((page, lsn)) => {
                    let bp = old(self).pool@[page_id];
                    &&& old(self).pool@.contains_key(page_id)
                    &&& bytes_view(page) == bp.data@
                    &&& lsn == bp.lsn
                    &&& final(self).cache_hits == old(self).cache_hits.wrapping_add(1)
                    &&& final(self).clock == old(self).clock + 1
                    &&& placed(
                        old(self).pool@,
                        final(self).pool@,
                        page_id,
                        bp.data@,
                        bp.dirty,
                        bp.lsn,
                        old(self).clock,
                    )
                },
                None => {
                    &&& !old(self).pool@.contains_key(page_id)
                    &&& final(self).pool@ == old(self).pool@
                    &&& final(self).cache_hits == old(self).cache_hits
                    &&& final(self).clock == old(self).clock
                },
            },
    {
        let ghost before = self.pool@;
        match self.pool.remove(&page_id) {
            Some(bp) => {
                let tick: u64 = self.clock;
                let copy = copy_bytes(bp.data.as_slice());
                let lsn: u64 = bp.lsn;
                let bp2 = BufferPage { data: bp.data, dirty: bp.dirty, lsn, last_accessed: tick };
                self.pool.insert(page_id, bp2);
                self.clock = tick + 1;
                self.cache_hits = self.cache_hits.wrapping_add(1);
                assert(self.pool@ =~= before.insert(page_id, self.pool@[page_id]));
                Some((page_from_vec(copy), lsn))
            },
            None => {
                assert(self.pool@ =~= before);
                None
            },
        }
    }

    /// Takes what the page file held of a page that was not in memory. A page of
    /// zeros is a page that was never written.
    pub fn complete_read(&mut self, bytes: Option<Vec<u8>>) -> (r: Option<(Page, u64)>)
        ensures
            final(self).pool@ == old(self).pool@,
            final(self).clock == old(self).clock,
            final(self).checkpoint_lsn == old(self).checkpoint_lsn,
            final(self).max_page_id == old(self).max_page_id,
            final(self).cache_hits == old(self).cache_hits,
            final(self).shutdown == old(self).shutdown,
            final(self).cache_misses == old(self).cache_misses.wrapping_add(1),
            match bytes {
                Some(b) => if all_zero(b@) {
                    r is None
                } else {
                    r matches Some((p, lsn)) && bytes_view(p) == b@ && lsn == 0
                },
                None => r is None,
            },
    {
        self.cache_misses = self.cache_misses.wrapping_add(1);
        match bytes {
            Some(b) => {
                if is_all_zero(b.as_slice()) {
                    None
                } else {
                    Some((page_from_vec(b), 0))
                }
            },
            None => None,
        }
    }

    /// Puts a page into memory, to be written with the next checkpoint.
    pub fn put(&mut self, page_id: PageId, data: &[u8], lsn: u64) -> (r: Result<()>)
        requires
            old(self).wf(),
            old(self).clock < u64::MAX,
        ensures
            final(self).wf(),
            final(self).checkpoint_lsn == old(self).checkpoint_lsn,
            final(self).cache_hits == old(self).cache_hits,
            final(self).cache_misses == old(self).cache_misses,
            final(self).shutdown == old(self).shutdown,
            if data@.len() != PAGE_SIZE {
                &&& r matches Err(Error::InvalidPageSize(a, b)) && a == data@.len() && b == PAGE_SIZE
                &&& final(self).pool@ == old(self).pool@
                &&& final(self).clock == old(self).clock
                &&& final(self).max_page_id == old(self).max_page_id
            } else {
                &&& r is Ok
                &&& final(self).clock == old(self).clock + 1
                &&& placed(
                    old(self).pool@,
                    final(self).pool@,
                    page_id,
                    data@,
                    true,
                    lsn,
                    old(self).clock,
                )
                &&& final(self).max_page_id == (if page_id > old(self).max_page_id {
                    page_id
                } else {
                    old(self).max_page_id
                })
            },
    {
        if data.len() != PAGE_SIZE {
            return Err(Error::InvalidPageSize(data.len(), PAGE_SIZE));
        }
        let tick: u64 = self.clock;
        let bp = BufferPage { data: copy_bytes(data), dirty: true, lsn, last_accessed: tick };
        self.pool.insert(page_id, bp);
        self.clock = tick + 1;
        if page_id > self.max_page_id {
            self.max_page_id = page_id;
        }
        Ok(())
    }

    /// Puts a page into memory without an LSN.
    pub fn put_direct(&mut self, page_id: PageId, data: &[u8]) -> (r: Result<()>)
        requires
            old(self).wf(),
            old(self).clock < u64::MAX,
        ensures
            final(self).wf(),
            final(self).checkpoint_lsn == old(self).checkpoint_lsn,
            final(self).cache_hits == old(self).cache_hits,
            final(self).cache_misses == old(self).cache_misses,
            final(self).shutdown == old(self).shutdown,
            if data@.len() != PAGE_SIZE {
                &&& r matches Err(Error::InvalidPageSize(a, b)) && a == data@.len() && b == PAGE_SIZE
                &&& final(self).pool@ == old(self).pool@
                &&& final(self).clock == old(self).clock
                &&& final(self).max_page_id == old(self).max_page_id
            } else {
                &&& r is Ok
                &&& final(self).clock == old(self).clock + 1
                &&& placed(
                    old(self).pool@,
                    final(self).pool@,
                    page_id,
                    data@,
                    true,
                    0,
                    old(self).clock,
                )
                &&& final(self).max_page_id == (if page_id > old(self).max_page_id {
                    page_id
                } else {
                    old(self).max_page_id
                })
            },
    {
        self.put(page_id, data, 0)
    }

    /// Drops a page from memory.
    pub fn delete(&mut self, page_id: PageId)
        requires
            old(self).wf(),
        ensures
            final(self).wf(),
            final(self).pool@ == old(self).pool@.remove(page_id),
            final(self).clock == old(self).clock,
            final(self).checkpoint_lsn == old(self).checkpoint_lsn,
            final(self).max_page_id == old(self).max_page_id,
            final(self).cache_hits == old(self).cache_hits,
            final(self).cache_misses == old(self).cache_misses,
            final(self).shutdown == old(self).shutdown,
    {
        self.pool.remove(&page_id);
    }

    /// Pages in memory, dirty pages and the greatest LSN.
    pub fn buffer_stats(&self) -> (r: BufferStats)
        requires
            self.pool@.len() * PAGE_SIZE <= usize::MAX,
        ensures
            r.total_pages == self.pool@.len(),
            r.dirty_count == dirty_ids(self.pool@).len(),
            r.dirty_bytes == r.dirty_count * PAGE_SIZE,
            forall|id: u64| #[trigger]
                self.pool@.contains_key(id) ==> self.pool@[id].lsn <= r.max_lsn,
            r.max_lsn == 0 || exists|id: u64| #[trigger]
                self.pool@.contains_key(id) && self.pool@[id].lsn == r.max_lsn,
    {
        let ghost m = self.pool@;
        let total: usize = self.pool.len();
        let mut dirty: usize = 0;
        let mut max_lsn: u64 = 0;
        let ghost pairs = spec_btree_map_iter(&self.pool).remaining();
        let ghost mut seen: Set<u64> = Set::empty();
        let it0 = self.pool.iter();
        for (id, bp) in it: it0
            invariant
                it.seq() == pairs,
                m == self.pool@,
                pairs.len() == m.len(),
                pairs.no_duplicates(),
                forall|i: int|
                    0 <= i < pairs.len() ==> m.contains_key(*(#[trigger] pairs[i]).0)
                        && m[*pairs[i].0] == *pairs[i].1,
                seen.finite(),
                dirty == seen.len(),
                dirty <= it.index(),
                it.index() <= pairs.len(),
                pairs.len() <= usize::MAX,
                forall|x: u64| #[trigger]
                    seen.contains(x) <==> exists|j: int|
                        0 <= j < it.index() && *(#[trigger] pairs[j]).0 == x && m[x].dirty,
                forall|j: int| 0 <= j < it.index() ==> m[*(#[trigger] pairs[j]).0].lsn <= max_lsn,
                max_lsn == 0 || exists|j: int|
                    0 <= j < it.index() && m[*(#[trigger] pairs[j]).0].lsn == max_lsn,
        {
            proof {
                assert(*pairs[it.index() as int].0 == *id);
                assert(m[*id] == *bp);
                if bp.dirty {
                    if seen.contains(*id) {
                        let j = choose|j: int|
                            0 <= j < it.index() && *(#[trigger] pairs[j]).0 == *id && m[*id].dirty;
                        assert(pairs[j] == pairs[it.index() as int]);
                    }
                    seen = seen.insert(*id);
                }
            }
            if bp.dirty {
                dirty += 1;
            }
            if bp.lsn > max_lsn {
                max_lsn = bp.lsn;
            }
        }
        proof {
            assert forall|x: u64| seen.contains(x) <==> dirty_ids(m).contains(x) by {
                if dirty_ids(m).contains(x) {
                    assert(pairs.contains((&x, &m[x])));
                    let i = choose|i: int| 0 <= i < pairs.len() && pairs[i] == (&x, &m[x]);
                    assert(*pairs[i].0 == x);
                }
            }
            assert(seen =~= dirty_ids(m));
            assert forall|id: u64| #[trigger] m.contains_key(id) implies m[id].lsn <= max_lsn by {
                assert(pairs.contains((&id, &m[id])));
                let i = choose|i: int| 0 <= i < pairs.len() && pairs[i] == (&id, &m[id]);
                assert(*pairs[i].0 == id);
            }
            if max_lsn != 0 {
                let j = choose|j: int|
                    0 <= j < pairs.len() && m[*(#[trigger] pairs[j]).0].lsn == max_lsn;
                assert(m.contains_key(*pairs[j].0));
            }
            assert(dirty * PAGE_SIZE <= usize::MAX) by (nonlinear_arith)
                requires
                    dirty <= m.len(),
                    m.len() * PAGE_SIZE <= usize::MAX,
            ;
        }
        BufferStats { total_pages: total, dirty_count: dirty, dirty_bytes: dirty * PAGE_SIZE, max_lsn }
    }

    pub fn checkpoint_lsn(&self) -> (r: u64)
        ensures
            r == self.checkpoint_lsn,
    {
        self.checkpoint_lsn
    }

    pub fn cache_stats(&self) -> (r: CacheStats)
        ensures
            r.hits == self.cache_hits,
            r.misses == self.cache_misses,
    {
        CacheStats { hits: self.cache_hits, misses: self.cache_misses }
    }

    pub fn max_page_id(&self) -> (r: PageId)
        ensures
            r == self.max_page_id,
    {
        self.max_page_id
    }

    /// The dirty pages, in ascending order of page id.
    pub fn dirty_pages(&self) -> (r: Vec<DirtyPage>)
        ensures
            lists_dirty(r@, self.pool@),
    {
        let ghost m = self.pool@;
        let mut out: Vec<DirtyPage> = Vec::new();
        let ghost pairs = spec_btree_map_iter(&self.pool).remaining();
        let it0 = self.pool.iter();
        proof {
            let ks = pairs.map_values(|kv: (&u64, &BufferPage)| *kv.0);
            assert(increasing_seq(ks));
            lemma_increasing(ks);
            assert forall|i: int, j: int| 0 <= i < j < pairs.len() implies *(#[trigger] pairs[i]).0
                < *(#[trigger] pairs[j]).0 by {
                assert(ks[i] == *pairs[i].0 && ks[j] == *pairs[j].0);
            }
        }
        for (id, bp) in it: it0
            invariant
                it.seq() == pairs,
                m == self.pool@,
                forall|i: int, j: int|
                    0 <= i < j < pairs.len() ==> *(#[trigger] pairs[i]).0 < *(
                    #[trigger] pairs[j]).0,
                forall|i: int|
                    0 <= i < pairs.len() ==> m.contains_key(*(#[trigger] pairs[i]).0)
                        && m[*pairs[i].0] == *pairs[i].1,
                forall|i: int|
                    0 <= i < out@.len() ==> is_dirty_entry(#[trigger] out@[i], m) && exists|j: int|
                        0 <= j < it.index() && *(#[trigger] pairs[j]).0 == out@[i].page_id,
                forall|i: int, j: int|
                    0 <= i < j < out@.len() ==> (#[trigger] out@[i]).page_id < (
                    #[trigger] out@[j]).page_id,
                forall|j: int|
                    0 <= j < it.index() && m[*(#[trigger] pairs[j]).0].dirty ==> exists|i: int|
                        0 <= i < out@.len() && (#[trigger] out@[i]).page_id == *pairs[j].0,
        {
            let ghost n = it.index() as int;
            assert(*pairs[n].0 == *id);
            assert(m[*id] == *bp);
            let ghost prev = out@;
            if bp.dirty {
                out.push(
                    DirtyPage {
                        page_id: *id,
                        data: copy_bytes(bp.data.as_slice()),
                        lsn: bp.lsn,
                    },
                );
                proof {
                    let k = prev.len() as int;
                    assert(out@[k].page_id == *id);
                    assert forall|i: int| 0 <= i < k implies (#[trigger] out@[i]).page_id < *id by {
                        assert(out@[i] == prev[i]);
                        let j = choose|j: int|
                            0 <= j < n && *(#[trigger] pairs[j]).0 == prev[i].page_id;
                        assert(*pairs[j].0 < *pairs[n].0);
                    }
                    assert forall|j: int| 0 <= j < n && m[*(#[trigger] pairs[j]).0].dirty implies exists|
                        i: int,
                    |
                        0 <= i < out@.len() && (#[trigger] out@[i]).page_id == *pairs[j].0 by {
                        let i = choose|i: int|
                            0 <= i < prev.len() && (#[trigger] prev[i]).page_id == *pairs[j].0;
                        assert(out@[i] == prev[i]);
                    }
                }
            }
        }
        proof {
            assert forall|id: u64| #[trigger] m.contains_key(id) && m[id].dirty implies exists|i: int|
                0 <= i < out@.len() && (#[trigger] out@[i]).page_id == id by {
                assert(pairs.contains((&id, &m[id])));
                let j = choose|j: int| 0 <= j < pairs.len() && pairs[j] == (&id, &m[id]);
                assert(*pairs[j].0 == id);
                assert(m[*pairs[j].0].dirty);
            }
        }
        out
    }

    /// Takes note that pages have reached the page file. Returns the checkpoint
    /// LSN when it has moved and is to be written.
    pub fn finish_checkpoint(&mut self, written: &Vec<DirtyPage>) -> (r: Option<u64>)
        requires
            old(self).wf(),
        ensures
            final(self).wf(),
            final(self).clock == old(self).clock,
            final(self).max_page_id == old(self).max_page_id,
            final(self).cache_hits == old(self).cache_hits,
            final(self).cache_misses == old(self).cache_misses,
            final(self).shutdown == old(self).shutdown,
            final(self).pool@.dom() == old(self).pool@.dom(),
            forall|id: u64| #[trigger]
                old(self).pool@.contains_key(id) ==> cleaned(
                    old(self).pool@[id],
                    final(self).pool@[id],
                    was_written(written@, written@.len() as int, id),
                ),
            ({
                let lsn = max_written_lsn(written@, written@.len() as int);
                if written@.len() > 0 && lsn > old(self).checkpoint_lsn {
                    r == Some(lsn as u64) && final(self).checkpoint_lsn == lsn
                } else {
                    r is None && final(self).checkpoint_lsn == old(self).checkpoint_lsn
                }
            }),
    {
        let ghost before = self.pool@;
        let n: usize = written.len();
        let mut max_lsn: u64 = 0;
        let mut i: usize = 0;
        while i < n
            invariant
                n == written@.len(),
                i <= n,
                before == old(self).pool@,
                self.wf(),
                self.clock == old(self).clock,
                self.max_page_id == old(self).max_page_id,
                self.cache_hits == old(self).cache_hits,
                self.cache_misses == old(self).cache_misses,
                self.shutdown == old(self).shutdown,
                self.checkpoint_lsn == old(self).checkpoint_lsn,
                self.pool@.dom() == before.dom(),
                forall|id: u64| #[trigger]
                    before.contains_key(id) ==> cleaned(
                        before[id],
                        self.pool@[id],
                        was_written(written@, i as int, id),
                    ),
                max_lsn == max_written_lsn(written@, i as int),
            decreases n - i,
        {
            let id: u64 = written[i].page_id;
            let ghost mid = self.pool@;
            match self.pool.remove(&id) {
                Some(bp) => {
                    let bp2 = BufferPage {
                        data: bp.data,
                        dirty: false,
                        lsn: bp.lsn,
                        last_accessed: bp.last_accessed,
                    };
                    self.pool.insert(id, bp2);
                },
                None => {},
            }
            proof {
                assert(self.pool@.dom() =~= before.dom());
                assert forall|x: u64| #[trigger] before.contains_key(x) implies cleaned(
                    before[x],
                    self.pool@[x],
                    was_written(written@, i + 1, x),
                ) by {
                    assert(mid.contains_key(x));
                    assert(cleaned(before[x], mid[x], was_written(written@, i as int, x)));
                }
                assert forall|x: u64| #[trigger] self.pool@.contains_key(x) implies self.pool@[
                    x
                ].data@.len() == PAGE_SIZE && self.pool@[x].last_accessed < self.clock by {
                    assert(mid.contains_key(x));
                }
            }
            if written[i].lsn > max_lsn {
                max_lsn = written[i].lsn;
            }
            i += 1;
        }
        if n > 0 && max_lsn > self.checkpoint_lsn {
            self.checkpoint_lsn = max_lsn;
            return Some(max_lsn);
        }
        None
    }

    /// Whether a checkpoint is due, `elapsed_nanos` after the last one.
    pub fn should_checkpoint(&self, config: &CheckpointConfig, elapsed_nanos: u128) -> (r: bool)
        requires
            self.pool@.len() * PAGE_SIZE <= usize::MAX,
        ensures
            r == (dirty_ids(self.pool@).len() > config.max_dirty_pages || dirty_ids(
                self.pool@,
            ).len() * PAGE_SIZE > config.max_dirty_bytes || elapsed_nanos > config.interval_nanos),
    {
        let stats = self.buffer_stats();
        stats.dirty_count > config.max_dirty_pages || stats.dirty_bytes > config.max_dirty_bytes
            || elapsed_nanos > config.interval_nanos
    }

    /// Whether dirty pages alone make a checkpoint due.
    pub fn under_pressure(&self, config: &CheckpointConfig) -> (r: bool)
        requires
            self.pool@.len() * PAGE_SIZE <= usize::MAX,
        ensures
            r == (dirty_ids(self.pool@).len() > config.max_dirty_pages || dirty_ids(
                self.pool@,
            ).len() * PAGE_SIZE > config.max_dirty_bytes),
    {
        let stats = self.buffer_stats();
        stats.dirty_count > config.max_dirty_pages || stats.dirty_bytes > config.max_dirty_bytes
    }

    /// The page, other than those in `taken`, that was not accessed for the longest time.
    fn coldest(&self, taken: &Vec<u64>) -> (r: Option<u64>)
        ensures
            match r {
                Some(id) => {
                    &&& self.pool@.contains_key(id)
                    &&& !taken@.contains(id)
                    &&& forall|x: u64| #[trigger]
                        self.pool@.contains_key(x) && !taken@.contains(x)
                            ==> self.pool@[id].last_accessed <= self.pool@[x].last_accessed
                },
                None => forall|x: u64| #[trigger]
                    self.pool@.contains_key(x) ==> taken@.contains(x),
            },
    {
        let ghost m = self.pool@;
        let ghost pairs = spec_btree_map_iter(&self.pool).remaining();
        let mut best: Option<(u64, u64)> = None;
        let it0 = self.pool.iter();
        for (id, bp) in it: it0
            invariant
                it.seq() == pairs,
                m == self.pool@,
                forall|i: int|
                    0 <= i < pairs.len() ==> m.contains_key(*(#[trigger] pairs[i]).0)
                        && m[*pairs[i].0] == *pairs[i].1,
                match best {
                    Some((b, t)) => {
                        &&& m.contains_key(b)
                        &&& m[b].last_accessed == t
                        &&& !taken@.contains(b)
                        &&& forall|j: int|
                            0 <= j < it.index() && !taken@.contains(*(#[trigger] pairs[j]).0) ==> t
                                <= m[*pairs[j].0].last_accessed
                    },
                    None => forall|j: int|
                        0 <= j < it.index() ==> taken@.contains(*(#[trigger] pairs[j]).0),
                },
        {
            assert(*pairs[it.index() as int].0 == *id);
            assert(m[*id] == *bp);
            if !contains_id(taken, *id) {
                match best {
                    Some((b, t)) => {
                        if bp.last_accessed < t {
                            best = Some((*id, bp.last_accessed));
                        }
                    },
                    None => {
                        best = Some((*id, bp.last_accessed));
                    },
                }
            }
        }
        proof {
            assert forall|x: u64| #[trigger] m.contains_key(x) implies exists|j: int|
                0 <= j < pairs.len() && *(#[trigger] pairs[j]).0 == x by {
                assert(pairs.contains((&x, &m[x])));
                let j = choose|j: int| 0 <= j < pairs.len() && pairs[j] == (&x, &m[x]);
                assert(*pairs[j].0 == x);
            }
        }
        match best {
            Some((b, _)) => Some(b),
            None => None,
        }
    }

    /// The pages to drop from memory, coldest first; none while no more than
    /// `max_pages` are in memory.
    pub fn eviction_plan(&self, config: &BufferPoolConfig) -> (r: Vec<u64>)
        requires
            self.pool@.len() - config.max_pages + config.eviction_batch_size <= usize::MAX,
        ensures
            r@.no_duplicates(),
            forall|i: int| 0 <= i < r@.len() ==> self.pool@.contains_key(#[trigger] r@[i]),
            forall|i: int, x: u64|
                0 <= i < r@.len() && #[trigger] self.pool@.contains_key(x) && (!r@.contains(x)
                    || exists|j: int| i <= j < r@.len() && r@[j] == x)
                    ==> self.pool@[#[trigger] r@[i]].last_accessed <= self.pool@[x].last_accessed,
            r@.len() == eviction_count(self.pool@.len() as int, *config),
    {
        let mut out: Vec<u64> = Vec::new();
        let count: usize = self.pool.len();
        if count <= config.max_pages {
            return out;
        }
        let to_evict: usize = count - config.max_pages + config.eviction_batch_size;
        let ghost m = self.pool@;
        while out.len() < to_evict && out.len() < count
            invariant
                m == self.pool@,
                count == m.len(),
                out@.len() <= count,
                out@.len() <= to_evict,
                out@.no_duplicates(),
                forall|i: int| 0 <= i < out@.len() ==> m.contains_key(#[trigger] out@[i]),
                forall|i: int, x: u64|
                    0 <= i < out@.len() && #[trigger] m.contains_key(x) && (!out@.contains(x)
                        || exists|j: int| i <= j < out@.len() && out@[j] == x)
                        ==> m[#[trigger] out@[i]].last_accessed <= m[x].last_accessed,
            decreases count - out@.len(),
        {
            let next = self.coldest(&out);
            proof {
                if next is None {
                    assert(m.dom().subset_of(out@.to_set())) by {
                        assert forall|x: u64| m.dom().contains(x) implies out@.to_set().contains(
                            x,
                        ) by {
                            assert(m.contains_key(x));
                        }
                    }
                    out@.unique_seq_to_set();
                    vstd::set_lib::lemma_len_subset(m.dom(), out@.to_set());
                }
            }
            let id: u64 = next.unwrap();
            let ghost prev = out@;
            out.push(id);
            proof {
                assert forall|i: int, x: u64|
                    0 <= i < out@.len() && #[trigger] m.contains_key(x) && (!out@.contains(x)
                        || exists|j: int| i <= j < out@.len() && out@[j] == x) implies m[
                    #[trigger] out@[i]
                ].last_accessed <= m[x].last_accessed by {
                    if i < prev.len() {
                        assert(out@[i] == prev[i]);
                        if prev.contains(x) {
                            let p = choose|p: int| 0 <= p < prev.len() && prev[p] == x;
                            assert(out@[p] == x);
                            assert(out@.contains(x));
                            let j = choose|j: int| i <= j < out@.len() && out@[j] == x;
                            if j < prev.len() {
                                assert(prev[j] == x);
                            } else {
                                assert(x == id);
                                assert(prev.contains(id));
                            }
                        }
                    } else {
                        if prev.contains(x) {
                            let p = choose|p: int| 0 <= p < prev.len() && prev[p] == x;
                            assert(out@[p] == x);
                            assert(out@.contains(x));
                            let j = choose|j: int| i <= j < out@.len() && out@[j] == x;
                            assert(x == id);
                        }
                    }
                }
            }
        }
        out
    }

    /// Of the pages to drop, those that must first be written.
    pub fn dirty_among(&self, ids: &Vec<u64>) -> (r: Vec<DirtyPage>)
        ensures
            forall|i: int| 0 <= i < r@.len() ==> is_dirty_entry(#[trigger] r@[i], self.pool@),
            r@.map_values(|d: DirtyPage| d.page_id) == ids@.filter(
                |id: u64| self.pool@.contains_key(id) && self.pool@[id].dirty,
            ),
    {
        let mut out: Vec<DirtyPage> = Vec::new();
        let ghost keep = |id: u64| self.pool@.contains_key(id) && self.pool@[id].dirty;
        let ghost idof = |d: DirtyPage| d.page_id;
        let n: usize = ids.len();
        let mut i: usize = 0;
        reveal(Seq::filter);
        assert(ids@.take(0).filter(keep) =~= Seq::empty());
        assert(out@.map_values(idof) =~= Seq::empty());
        while i < n
            invariant
                n == ids@.len(),
                i <= n,
                keep == (|id: u64| self.pool@.contains_key(id) && self.pool@[id].dirty),
                idof == (|d: DirtyPage| d.page_id),
                forall|k: int| 0 <= k < out@.len() ==> is_dirty_entry(#[trigger] out@[k], self.pool@),
                out@.map_values(idof) == ids@.take(i as int).filter(keep),
            decreases n - i,
        {
            let id: u64 = ids[i];
            assert(ids@.take(i + 1).drop_last() =~= ids@.take(i as int));
            assert(ids@.take(i + 1).filter(keep) == (if keep(id) {
                ids@.take(i as int).filter(keep).push(id)
            } else {
                ids@.take(i as int).filter(keep)
            })) by {
                reveal(Seq::filter);
            }
            match self.pool.get(&id) {
                Some(bp) => {
                    if bp.dirty {
                        let ghost prev = out@;
                        out.push(
                            DirtyPage {
                                page_id: id,
                                data: copy_bytes(bp.data.as_slice()),
                                lsn: bp.lsn,
                            },
                        );
                        assert(out@.map_values(idof) =~= prev.map_values(idof).push(id));
                    }
                },
                None => {},
            }
            i += 1;
        }
        assert(ids@.take(n as int) =~= ids@);
        out
    }

    /// Drops pages from memory; returns how many were there.
    pub fn evict(&mut self, ids: &Vec<u64>) -> (r: usize)
        requires
            old(self).wf(),
        ensures
            final(self).wf(),
            final(self).pool@ == old(self).pool@.remove_keys(ids@.to_set()),
            r == old(self).pool@.len() - final(self).pool@.len(),
            final(self).clock == old(self).clock,
            final(self).checkpoint_lsn == old(self).checkpoint_lsn,
            final(self).max_page_id == old(self).max_page_id,
            final(self).cache_hits == old(self).cache_hits,
            final(self).cache_misses == old(self).cache_misses,
            final(self).shutdown == old(self).shutdown,
    {
        let ghost before = self.pool@;
        let n: usize = ids.len();
        let mut evicted: usize = 0;
        let mut i: usize = 0;
        assert(self.pool@ =~= before.remove_keys(ids@.take(0).to_set()));
        while i < n
            invariant
                n == ids@.len(),
                i <= n,
                self.wf(),
                before == old(self).pool@,
                before.dom().finite(),
                self.pool@ == before.remove_keys(ids@.take(i as int).to_set()),
                evicted == before.len() - self.pool@.len(),
                evicted <= i,
                self.clock == old(self).clock,
                self.checkpoint_lsn == old(self).checkpoint_lsn,
                self.max_page_id == old(self).max_page_id,
                self.cache_hits == old(self).cache_hits,
                self.cache_misses == old(self).cache_misses,
                self.shutdown == old(self).shutdown,
            decreases n - i,
        {
            let id: u64 = ids[i];
            let ghost mid = self.pool@;
            assert(mid.dom() =~= before.dom().difference(ids@.take(i as int).to_set()));
            if self.pool.remove(&id).is_some() {
                evicted += 1;
                assert(self.pool@.dom() =~= mid.dom().remove(id));
            } else {
                assert(self.pool@ =~= mid);
            }
            proof {
                let t = ids@.take(i as int);
                let t2 = ids@.take(i + 1);
                assert(t2 =~= t.push(id));
                assert(t2.to_set() =~= t.to_set().insert(id)) by {
                    assert forall|x: u64| t2.to_set().contains(x) <==> t.to_set().insert(
                        id,
                    ).contains(x) by {
                        if t.contains(x) {
                            let k = choose|k: int| 0 <= k < t.len() && t[k] == x;
                            assert(t2[k] == x);
                        }
                        if x == id {
                            assert(t2[i as int] == x);
                        }
                        if t2.contains(x) {
                            let k = choose|k: int| 0 <= k < t2.len() && t2[k] == x;
                            if k < t.len() {
                                assert(t[k] == x);
                            }
                        }
                    }
                }
                assert(self.pool@ =~= before.remove_keys(t2.to_set()));
            }
            i += 1;
        }
        assert(ids@.take(n as int) =~= ids@);
        evicted
    }

    pub fn shutdown(&mut self)
        ensures
            final(self).shutdown,
            final(self).pool@ == old(self).pool@,
            final(self).cache_hits == old(self).cache_hits,
            final(self).cache_misses == old(self).cache_misses,
            final(self).checkpoint_lsn == old(self).checkpoint_lsn,
            final(self).max_page_id == old(self).max_page_id,
            final(self).clock == old(self).clock,
    {
        self.shutdown = true;
    }

    pub fn is_shutdown(&self) -> (r: bool)
        ensures
            r == self.shutdown,
    {
        self.shutdown
    }

    /// Pages in memory.
    pub fn len(&self) -> (r: usize)
        ensures
            r == self.pool@.len(),
    {
        self.pool.len()
    }

    pub fn is_empty(&self) -> (r: bool)
        ensures
            r == (self.pool@.len() == 0),
    {
        self.pool.len() == 0
    }

    /// The ids of the pages in memory, in ascending order.
    pub fn keys(&self) -> (r: Vec<PageId>)
        ensures
            forall|i: int| 0 <= i < r@.len() ==> self.pool@.contains_key(#[trigger] r@[i]),
            forall|id: u64| #[trigger] self.pool@.contains_key(id) ==> r@.contains(id),
            forall|i: int, j: int| 0 <= i < j < r@.len() ==> #[trigger] r@[i] < #[trigger] r@[j],
    {
        let ghost m = self.pool@;
        let mut out: Vec<u64> = Vec::new();
        let ghost pairs = spec_btree_map_iter(&self.pool).remaining();
        let it0 = self.pool.iter();
        proof {
            let ks = pairs.map_values(|kv: (&u64, &BufferPage)| *kv.0);
            assert(increasing_seq(ks));
            lemma_increasing(ks);
            assert forall|i: int, j: int| 0 <= i < j < pairs.len() implies *(#[trigger] pairs[i]).0
                < *(#[trigger] pairs[j]).0 by {
                assert(ks[i] == *pairs[i].0 && ks[j] == *pairs[j].0);
            }
        }
        for (id, bp) in it: it0
            invariant
                it.seq() == pairs,
                out@.len() == it.index(),
                forall|j: int| 0 <= j < out@.len() ==> #[trigger] out@[j] == *pairs[j].0,
        {
            out.push(*id);
        }
        proof {
            assert forall|i: int| 0 <= i < out@.len() implies m.contains_key(#[trigger] out@[i]) by {
                assert(m.contains_key(*pairs[i].0));
            }
            assert forall|id: u64| #[trigger] m.contains_key(id) implies out@.contains(id) by {
                assert(pairs.contains((&id, &m[id])));
                let j = choose|j: int| 0 <= j < pairs.len() && pairs[j] == (&id, &m[id]);
                assert(out@[j] == id);
            }
        }
        out
    }
}

fn contains_id(ids: &Vec<u64>, id: u64) -> (r: bool)
    ensures
        r == ids@.contains(id),
{
    let mut i: usize = 0;
    while i < ids.len()
        invariant
            i <= ids@.len(),
            forall|j: int| 0 <= j < i ==> ids@[j] != id,
        decreases ids@.len() - i,
    {
        if ids[i] == id {
            return true;
        }
        i += 1;
    }
    false
}

/// A dirty page of the pool as it is to be written.
pub open spec fn is_dirty_entry(d: DirtyPage, m: Map<u64, BufferPage>) -> bool {
    &&& m.contains_key(d.page_id)
    &&& m[d.page_id].dirty
    &&& d.data@ == m[d.page_id].data@
    &&& d.lsn == m[d.page_id].lsn
}

/// `ds` lists every dirty page once, in ascending order of page id.
pub open spec fn lists_dirty(ds: Seq<DirtyPage>, m: Map<u64, BufferPage>) -> bool {
    &&& forall|i: int| 0 <= i < ds.len() ==> is_dirty_entry(#[trigger] ds[i], m)
    &&& forall|i: int, j: int|
        0 <= i < j < ds.len() ==> (#[trigger] ds[i]).page_id < (#[trigger] ds[j]).page_id
    &&& forall|id: u64| #[trigger]
        m.contains_key(id) && m[id].dirty ==> exists|i: int|
            0 <= i < ds.len() && (#[trigger] ds[i]).page_id == id
}

/// The page is among the first `n` that were written.
pub open spec fn was_written(ds: Seq<DirtyPage>, n: int, id: u64) -> bool {
    exists|i: int| 0 <= i < n && (#[trigger] ds[i]).page_id == id
}

/// The greatest LSN among the first `n` pages that were written.
pub open spec fn max_written_lsn(ds: Seq<DirtyPage>, n: int) -> int
    decreases n,
{
    if n <= 0 {
        0
    } else if ds[n - 1].lsn > max_written_lsn(ds, n - 1) {
        ds[n - 1].lsn as int
    } else {
        max_written_lsn(ds, n - 1)
    }
}

/// A page before and after a checkpoint.
pub open spec fn cleaned(before: BufferPage, after: BufferPage, written: bool) -> bool {
    &&& after.data@ == before.data@
    &&& after.lsn == before.lsn
    &&& after.last_accessed == before.last_accessed
    &&& after.dirty == (before.dirty && !written)
}

/// Pages to drop when `count` are in memory.
pub open spec fn eviction_count(count: int, config: BufferPoolConfig) -> int {
    if count <= config.max_pages {
        0
    } else if count - config.max_pages + config.eviction_batch_size < count {
        count - config.max_pages + config.eviction_batch_size
    } else {
        count
    }
}

/// After a checkpoint of all dirty pages nothing in memory is dirty, and every
/// page reads as before.
pub proof fn law_checkpoint_cleans(
    before: Map<u64, BufferPage>,
    after: Map<u64, BufferPage>,
    written: Seq<DirtyPage>,
)
    requires
        lists_dirty(written, before),
        after.dom() == before.dom(),
        forall|id: u64| #[trigger]
            before.contains_key(id) ==> cleaned(
                before[id],
                after[id],
                was_written(written, written.len() as int, id),
            ),
    ensures
        forall|id: u64| #[trigger] after.contains_key(id) ==> !after[id].dirty,
        forall|id: u64| #[trigger]
            after.contains_key(id) ==> after[id].data@ == before[id].data@ && after[id].lsn
                == before[id].lsn,
        dirty_ids(after) == Set::<u64>::empty(),
{
    assert forall|id: u64| #[trigger] after.contains_key(id) implies !after[id].dirty
        && after[id].data@ == before[id].data@ && after[id].lsn == before[id].lsn by {
        assert(before.contains_key(id));
        assert(cleaned(before[id], after[id], was_written(written, written.len() as int, id)));
    }
    assert(dirty_ids(after) =~= Set::<u64>::empty());
}

/// Eviction loses nothing: a page that leaves memory was clean, or is among
/// those that `dirty_among` lists to be written first, with its bytes.
pub proof fn law_eviction_loses_nothing(
    before: Map<u64, BufferPage>,
    after: Map<u64, BufferPage>,
    ids: Seq<u64>,
    written: Seq<DirtyPage>,
)
    requires
        after == before.remove_keys(ids.to_set()),
        forall|i: int| 0 <= i < written.len() ==> is_dirty_entry(#[trigger] written[i], before),
        written.map_values(|d: DirtyPage| d.page_id) == ids.filter(
            |id: u64| before.contains_key(id) && before[id].dirty,
        ),
    ensures
        forall|id: u64| #[trigger]
            before.contains_key(id) && before[id].dirty && !after.contains_key(id) ==> exists|
                i: int,
            |
                0 <= i < written.len() && (#[trigger] written[i]).page_id == id
                    && written[i].data@ == before[id].data@,
        forall|id: u64| #[trigger] after.contains_key(id) ==> after[id] == before[id],
{
    let keep = |id: u64| before.contains_key(id) && before[id].dirty;
    let idof = |d: DirtyPage| d.page_id;
    assert forall|id: u64| #[trigger]
        before.contains_key(id) && before[id].dirty && !after.contains_key(id) implies exists|
            i: int,
        |
            0 <= i < written.len() && (#[trigger] written[i]).page_id == id && written[i].data@
                == before[id].data@ by {
        assert(ids.contains(id));
        let k = choose|k: int| 0 <= k < ids.len() && ids[k] == id;
        ids.lemma_filter_contains(keep, k);
        let listed = written.map_values(idof);
        assert(listed.contains(id));
        let i = choose|i: int| 0 <= i < listed.len() && listed[i] == id;
        assert(written[i].page_id == id);
    }
}

/// A checkpoint reaches up to the newest page that was written: no page that was written
/// has a later LSN, and where there is one with an LSN, one has it.
pub proof fn law_checkpoint_lsn_bounds_pages(ds: Seq<DirtyPage>, n: int)
    requires
        0 <= n <= ds.len(),
    ensures
        forall|i: int| 0 <= i < n ==> (#[trigger] ds[i]).lsn <= max_written_lsn(ds, n),
        max_written_lsn(ds, n) == 0 || exists|i: int|
            0 <= i < n && (#[trigger] ds[i]).lsn == max_written_lsn(ds, n),
    decreases n,
{
    if n > 0 {
        law_checkpoint_lsn_bounds_pages(ds, n - 1);
        if ds[n - 1].lsn == max_written_lsn(ds, n) {
            assert(0 <= n - 1 < n && ds[n - 1].lsn == max_written_lsn(ds, n));
        } else if max_written_lsn(ds, n) != 0 {
            let i = choose|i: int|
                0 <= i < n - 1 && (#[trigger] ds[i]).lsn == max_written_lsn(ds, n - 1);
            assert(0 <= i < n && ds[i].lsn == max_written_lsn(ds, n));
        }
    }
}

/// A pool that is not over its limit drops no page; one that is drops as many as it is
/// over, and a batch more, so that it is within the limit afterwards; never more than it
/// has.
pub proof fn law_eviction_restores_limit(count: int, config: BufferPoolConfig)
    requires
        count >= 0,
    ensures
        count <= config.max_pages ==> eviction_count(count, config) == 0,
        count > config.max_pages ==> {
            let left = count - eviction_count(count, config);
            &&& 0 <= left <= config.max_pages
            &&& left == 0 || left == config.max_pages - config.eviction_batch_size
        },
        0 <= eviction_count(count, config) <= count,
{
}

/// A checkpoint lists just the pages that were changed, each once and with its bytes and
/// its LSN.
pub proof fn law_changed_pages_are_listed(ds: Seq<DirtyPage>, m: Map<u64, BufferPage>, id: u64)
    requires
        lists_dirty(ds, m),
    ensures
        m.contains_key(id) && m[id].dirty <==> exists|i: int|
            0 <= i < ds.len() && (#[trigger] ds[i]).page_id == id,
        forall|i: int|
            0 <= i < ds.len() && (#[trigger] ds[i]).page_id == id ==> ds[i].data@ == m[id].data@
                && ds[i].lsn == m[id].lsn,
        forall|i: int, j: int|
            0 <= i < j < ds.len() ==> (#[trigger] ds[i]).page_id != (#[trigger] ds[j]).page_id,
{
}

/// A page that was written to disk is clean, one that was not stays as it was; neither
/// changes otherwise.
pub proof fn law_written_page_is_clean(before: BufferPage, after: BufferPage, written: bool)
    requires
        cleaned(before, after, written),
    ensures
        written ==> !after.dirty,
        !written ==> after.dirty == before.dirty,
        after.data@ == before.data@,
        after.lsn == before.lsn,
{
}

/// A page that is put into the pool is there with its bytes and its LSN, changed or not as
/// it was put; every other page stays.
pub proof fn law_put_page_is_there(
    before: Map<u64, BufferPage>,
    after: Map<u64, BufferPage>,
    id: u64,
    data: Seq<u8>,
    dirty: bool,
    lsn: u64,
    tick: u64,
    other: u64,
)
    requires
        placed(before, after, id, data, dirty, lsn, tick),
    ensures
        after.contains_key(id),
        after[id].data@ == data,
        after[id].dirty == dirty,
        after[id].lsn == lsn,
        other != id ==> after.contains_key(other) == before.contains_key(other) && (
        before.contains_key(other) ==> after[other] == before[other]),
{
}

} // verus!
