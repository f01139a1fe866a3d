//! Pages of the tree in memory, with a list of those that were written.
use vstd::prelude::*;

use crate::btree_meta::{btree_meta_bytes, BtreeMeta, BTREE_META_PAGE_ID};
use crate::common::{bytes_view, Page, PageId};
use crate::page_bptree::provider::AsyncPageProvider;
use std::collections::BTreeMap;

verus! {

broadcast use vstd::std_specs::btree::group_btree_axioms;

/// The bytes of pages.
pub open spec fn page_views(m: Map<u64, Page>) -> Map<u64, Seq<u8>> {
    m.map_values(|p: Page| bytes_view(p))
}

/// The pages of `m` are those of `base` with those of `list` in their place.
pub open spec fn listed_in(
    base: Map<PageId, Seq<u8>>,
    m: Map<PageId, Seq<u8>>,
    list: Map<PageId, Seq<u8>>,
) -> bool {
    forall|x: PageId| #[trigger]
        m.contains_key(x) ==> if list.contains_key(x) {
            list[x] == m[x]
        } else {
            base.contains_key(x) && base[x] == m[x]
        }
}

/// Shared page provider for B+Tree pages. Pages that are not here yet are put
/// in with `load_page` before the tree is used.
#[derive(Debug)]
pub struct TxnPageProvider {
    pub cached: BTreeMap<u64, Page>,
    pub next_page_id: u64,
    pub root: u64,
    pub btree_meta_page_id: PageId,
    /// Pages written since the list was last taken, with the page that names the root.
    pub dirty: BTreeMap<u64, Page>,
}

impl TxnPageProvider {
    pub fn new(next_page_id: u64, btree_meta_page_id: PageId) -> (r: TxnPageProvider)
        ensures
            r.pages() == Map::<PageId, Seq<u8>>::empty(),
            r.next_id() == next_page_id,
            r.root() == 0,
            r.btree_meta_page_id == btree_meta_page_id,
            r.dirty@ == Map::<u64, Page>::empty(),
    {
        let r = TxnPageProvider {
            cached: BTreeMap::new(),
            next_page_id,
            root: 0,
            btree_meta_page_id,
            dirty: BTreeMap::new(),
        };
        assert(r.pages() =~= Map::<PageId, Seq<u8>>::empty());
        r
    }

    pub fn set_next_page_id(&mut self, next: PageId)
        ensures
            final(self).next_id() == next,
            final(self).pages() == old(self).pages(),
            final(self).root() == old(self).root(),
            final(self).dirty == old(self).dirty,
            final(self).btree_meta_page_id == old(self).btree_meta_page_id,
    {
        self.next_page_id = next;
    }

    pub fn next_page_id(&self) -> (r: PageId)
        ensures
            r == self.next_id(),
    {
        self.next_page_id
    }

    /// Puts a page in that storage holds.
    pub fn load_page(&mut self, page_id: PageId, page: Page)
        ensures
            final(self).pages() == old(self).pages().insert(page_id, bytes_view(page)),
            final(self).next_id() == old(self).next_id(),
            final(self).root() == old(self).root(),
            final(self).dirty == old(self).dirty,
            final(self).btree_meta_page_id == old(self).btree_meta_page_id,
    {
        let ghost bytes = bytes_view(page);
        self.cached.insert(page_id, page);
        assert(self.pages() =~= old(self).pages().insert(page_id, bytes));
    }

    /// Takes the root as storage names it. The page that names it is held, but not
    /// listed as written.
    pub fn load_root(&mut self, page_id: PageId)
        ensures
            final(self).root() == page_id,
            final(self).pages() == old(self).pages().insert(
                old(self).btree_meta_page_id,
                btree_meta_bytes(page_id as int),
            ),
            final(self).next_id() == old(self).next_id(),
            final(self).dirty == old(self).dirty,
            final(self).btree_meta_page_id == old(self).btree_meta_page_id,
    {
        self.root = page_id;
        let meta = BtreeMeta { root_page_id: page_id };
        self.load_page(self.btree_meta_page_id, meta.encode());
    }

    /// Exchanges the list of written pages.
    pub fn swap_dirty(&mut self, other: &mut BTreeMap<u64, Page>)
        ensures
            final(self).dirty == *old(other),
            *final(other) == old(self).dirty,
            final(self).pages() == old(self).pages(),
            final(self).next_id() == old(self).next_id(),
            final(self).root() == old(self).root(),
            final(self).btree_meta_page_id == old(self).btree_meta_page_id,
    {
        std::mem::swap(&mut self.dirty, other);
    }
}

impl AsyncPageProvider for TxnPageProvider {
    open spec fn pages(&self) -> Map<PageId, Seq<u8>> {
        page_views(self.cached@)
    }

    open spec fn next_id(&self) -> int {
        self.next_page_id as int
    }

    open spec fn root(&self) -> PageId {
        self.root
    }

    open spec fn naming(&self) -> Option<PageId> {
        Some(self.btree_meta_page_id)
    }

    open spec fn covers(&self, base: Map<PageId, Seq<u8>>) -> bool {
        self.btree_meta_page_id == BTREE_META_PAGE_ID && listed_in(
            base,
            self.pages(),
            page_views(self.dirty@),
        )
    }

    open spec fn written(&self) -> Option<Set<PageId>> {
        Some(page_views(self.dirty@).dom())
    }

    fn read_page(&self, page_id: PageId) -> (r: Option<Page>) {
        match self.cached.get(&page_id) {
            Some(p) => Some(p.clone()),
            None => None,
        }
    }

    fn write_page(&mut self, page_id: PageId, page: Page)
        ensures
            page_views(final(self).dirty@) == page_views(old(self).dirty@).insert(
                page_id,
                bytes_view(page),
            ),
    {
        let ghost bytes = bytes_view(page);
        let copy = page.clone();
        self.cached.insert(page_id, page);
        self.dirty.insert(page_id, copy);
        assert(self.pages() =~= old(self).pages().insert(page_id, bytes));
        assert(page_views(self.dirty@) =~= page_views(old(self).dirty@).insert(page_id, bytes));
        assert(self.written()->0 =~= old(self).written()->0.insert(page_id));
    }

    fn alloc_page_id(&mut self) -> (r: PageId)
        ensures
            final(self).dirty == old(self).dirty,
    {
        let id: PageId = self.next_page_id;
        self.next_page_id = id + 1;
        id
    }

    fn root_page_id(&self) -> (r: PageId) {
        self.root
    }

    /// The page that names the root is held with the others and listed as written.
    fn set_root_page_id(&mut self, page_id: PageId)
        ensures
            page_views(final(self).dirty@) == page_views(old(self).dirty@).insert(
                old(self).btree_meta_page_id,
                btree_meta_bytes(page_id as int),
            ),
    {
        self.root = page_id;
        let meta = BtreeMeta { root_page_id: page_id };
        let page = meta.encode();
        let ghost bytes = bytes_view(page);
        let copy = page.clone();
        self.cached.insert(self.btree_meta_page_id, page);
        self.dirty.insert(self.btree_meta_page_id, copy);
        assert(self.pages() =~= old(self).pages().insert(self.btree_meta_page_id, bytes));
        assert(self.written()->0 =~= old(self).written()->0.insert(self.btree_meta_page_id));
        assert(page_views(self.dirty@) =~= page_views(old(self).dirty@).insert(
            self.btree_meta_page_id,
            bytes,
        ));
    }
}

} // verus!
