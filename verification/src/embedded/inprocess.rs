//! A sequencer and a page store in one process.
use vstd::prelude::*;

use crate::common::{bytes_view, io_error, is_io_error, IoErrorKind, Page, PageId, Result};
use crate::compute_sequencer::{request_seed, seed_from};
use crate::txn_page_provider::page_views;
use std::collections::BTreeMap;

verus! {

broadcast use vstd::std_specs::btree::group_btree_axioms;

/// Pages by id.
#[derive(Debug)]
pub struct InProcessPageStore {
    pub pages: BTreeMap<u64, Page>,
}

impl Default for InProcessPageStore {
    fn default() -> (r: InProcessPageStore)
        ensures
            r.view() == Map::<u64, Seq<u8>>::empty(),
    {
        let r = InProcessPageStore { pages: BTreeMap::new() };
        assert(r.view() =~= Map::<u64, Seq<u8>>::empty());
        r
    }
}

/// `m` after the first `n` of the pages were put in; of two with one id the later stays.
pub open spec fn put_all(m: Map<u64, Seq<u8>>, pages: Seq<(PageId, Page)>, n: int) -> Map<
    u64,
    Seq<u8>,
>
    decreases n,
{
    if n <= 0 {
        m
    } else {
        put_all(m, pages, n - 1).insert(pages[n - 1].0, bytes_view(pages[n - 1].1))
    }
}

impl InProcessPageStore {
    pub open spec fn view(&self) -> Map<u64, Seq<u8>> {
        page_views(self.pages@)
    }

    pub fn get(&self, page_id: PageId) -> (r: Option<Page>)
        ensures
            match r {
                Some(p) => self.view().contains_key(page_id) && bytes_view(p)
                    == self.view()[page_id],
                None => !self.view().contains_key(page_id),
            },
    {
        match self.pages.get(&page_id) {
            Some(p) => Some(p.clone()),
            None => None,
        }
    }

    pub fn put_pages(&mut self, pages: &Vec<(PageId, Page)>)
        ensures
            final(self).view() == put_all(old(self).view(), pages@, pages@.len() as int),
    {
        let n: usize = pages.len();
        let mut i: usize = 0;
        while i < n
            invariant
                n == pages@.len(),
                i <= n,
                self.view() == put_all(old(self).view(), pages@, i as int),
            decreases n - i,
        {
            let ghost before = self.view();
            let e = &pages[i];
            self.pages.insert(e.0, e.1.clone());
            assert(self.view() =~= before.insert(e.0, bytes_view(e.1)));
            i += 1;
        }
    }
}

/// Assigns LSNs; what is committed is durable at once.
#[derive(Debug)]
pub struct InProcessSequencer {
    pub next_lsn: u64,
    pub request_id: u64,
    pub durable_lsn: u64,
}

impl InProcessSequencer {
    /// A sequencer whose request ids begin at the given random number.
    pub fn with_random(random: u64) -> (r: InProcessSequencer)
        ensures
            r.next_lsn == 0,
            r.durable_lsn == 0,
            r.request_id == (if random == 0 {
                1
            } else {
                random
            }),
    {
        InProcessSequencer { next_lsn: 0, request_id: seed_from(random), durable_lsn: 0 }
    }

    pub fn new() -> (r: InProcessSequencer)
        ensures
            r.next_lsn == 0,
            r.durable_lsn == 0,
            r.request_id != 0,
    {
        InProcessSequencer { next_lsn: 0, request_id: request_seed(), durable_lsn: 0 }
    }

    pub fn durable_lsn(&self) -> (r: u64)
        ensures
            r == self.durable_lsn,
    {
        self.durable_lsn
    }

    pub fn begin_ro(&self) -> (r: u64)
        ensures
            r == self.durable_lsn,
    {
        self.durable_lsn
    }

    pub fn allocate_request_id(&mut self) -> (r: u64)
        ensures
            r == old(self).request_id,
            final(self).request_id == old(self).request_id.wrapping_add(1),
            final(self).next_lsn == old(self).next_lsn,
            final(self).durable_lsn == old(self).durable_lsn,
    {
        let id: u64 = self.request_id;
        self.request_id = id.wrapping_add(1);
        id
    }

    /// Assigns the next `n_writes` LSNs.
    pub fn reserve_txn_with_request_id(&mut self, n_writes: usize, request_id: u64) -> (r: Result<
        (u64, u64),
    >)
        requires
            old(self).next_lsn + n_writes <= u64::MAX,
        ensures
            final(self).request_id == old(self).request_id,
            final(self).durable_lsn == old(self).durable_lsn,
            if n_writes == 0 {
                &&& r matches Err(e) && is_io_error(
                    e,
                    IoErrorKind::InvalidInput,
                    "txn batch must be non-empty"@,
                )
                &&& final(self).next_lsn == old(self).next_lsn
            } else if request_id == 0 {
                &&& r matches Err(e) && is_io_error(
                    e,
                    IoErrorKind::InvalidInput,
                    "request_id must be non-zero"@,
                )
                &&& final(self).next_lsn == old(self).next_lsn
            } else {
                &&& r matches Ok((start, end)) && start == old(self).next_lsn && end == old(
                    self,
                ).next_lsn + n_writes
                &&& final(self).next_lsn == old(self).next_lsn + n_writes
            },
    {
        if n_writes == 0 {
            return Err(io_error(IoErrorKind::InvalidInput, "txn batch must be non-empty"));
        }
        if request_id == 0 {
            return Err(io_error(IoErrorKind::InvalidInput, "request_id must be non-zero"));
        }
        let start: u64 = self.next_lsn;
        let end: u64 = start + n_writes as u64;
        self.next_lsn = end;
        Ok((start, end))
    }

    /// Assigns the next `n_writes` LSNs under a new request id.
    pub fn reserve_txn(&mut self, n_writes: usize) -> (r: Result<(u64, u64, u64)>)
        requires
            old(self).next_lsn + n_writes <= u64::MAX,
        ensures
            final(self).request_id == old(self).request_id.wrapping_add(1),
            final(self).durable_lsn == old(self).durable_lsn,
            if n_writes == 0 {
                &&& r matches Err(e) && is_io_error(
                    e,
                    IoErrorKind::InvalidInput,
                    "txn batch must be non-empty"@,
                )
                &&& final(self).next_lsn == old(self).next_lsn
            } else if old(self).request_id == 0 {
                &&& r matches Err(e) && is_io_error(
                    e,
                    IoErrorKind::InvalidInput,
                    "request_id must be non-zero"@,
                )
                &&& final(self).next_lsn == old(self).next_lsn
            } else {
                &&& r matches Ok((id, start, end)) && id == old(self).request_id && start == old(
                    self,
                ).next_lsn && end == old(self).next_lsn + n_writes
                &&& final(self).next_lsn == old(self).next_lsn + n_writes
            },
    {
        let id: u64 = self.allocate_request_id();
        match self.reserve_txn_with_request_id(n_writes, id) {
            Ok((start, end)) => Ok((id, start, end)),
            Err(e) => Err(e),
        }
    }

    /// Writes the pages of a reserved transaction; it is then durable.
    pub fn commit_pages_reserved(
        &mut self,
        store: &mut InProcessPageStore,
        end_lsn: u64,
        pages: &Vec<(PageId, Page)>,
    ) -> (r: u64)
        ensures
            r == end_lsn,
            final(store).view() == put_all(old(store).view(), pages@, pages@.len() as int),
            final(self).durable_lsn == (if end_lsn > old(self).durable_lsn {
                end_lsn
            } else {
                old(self).durable_lsn
            }),
            final(self).next_lsn == old(self).next_lsn,
            final(self).request_id == old(self).request_id,
    {
        store.put_pages(pages);
        if end_lsn > self.durable_lsn {
            self.durable_lsn = end_lsn;
        }
        end_lsn
    }
}

/// Of several pages with one id the last one stays; a page with an id that is not among
/// them is as it was.
pub proof fn law_last_page_stays(
    m: Map<u64, Seq<u8>>,
    pages: Seq<(PageId, Page)>,
    n: int,
    x: u64,
    i: int,
)
    requires
        0 <= n <= pages.len(),
    ensures
        0 <= i < n && pages[i].0 == x && (forall|j: int|
            i < j < n ==> (#[trigger] pages[j]).0 != x) ==> put_all(m, pages, n).contains_key(x)
            && put_all(m, pages, n)[x] == bytes_view(pages[i].1),
        (forall|j: int| 0 <= j < n ==> (#[trigger] pages[j]).0 != x) ==> put_all(
            m,
            pages,
            n,
        ).contains_key(x) == m.contains_key(x) && (m.contains_key(x) ==> put_all(m, pages, n)[x]
            == m[x]),
    decreases n,
{
    if n > 0 {
        law_last_page_stays(m, pages, n - 1, x, i);
    }
}

} // verus!
