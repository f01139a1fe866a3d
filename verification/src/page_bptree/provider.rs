//! Where the pages of a tree are kept.
use vstd::prelude::*;

use std::collections::HashMap;

use crate::btree_meta::btree_meta_bytes;
use crate::common::{bytes_view, Page, PageId};

verus! {

/// A list of written pages, if there is one, with one page more.
pub open spec fn with_page(written: Option<Set<PageId>>, id: PageId) -> Option<Set<PageId>> {
    match written {
        Some(s) => Some(s.insert(id)),
        None => None,
    }
}

/// The pages of `m`, with the page that names the root, if there is one.
pub open spec fn with_root(
    m: Map<PageId, Seq<u8>>,
    naming: Option<PageId>,
    root: PageId,
) -> Map<PageId, Seq<u8>> {
    match naming {
        Some(x) => m.insert(x, btree_meta_bytes(root as int)),
        None => m,
    }
}

/// No page left the list of written pages.
pub open spec fn wrote_more(before: Option<Set<PageId>>, after: Option<Set<PageId>>) -> bool {
    match (before, after) {
        (Some(a), Some(b)) => a.subset_of(b),
        (None, None) => true,
        _ => false,
    }
}

/// All pages from `a` on and before `b` are on the list of written pages, if there is one.
pub open spec fn listed_from(written: Option<Set<PageId>>, a: int, b: int) -> bool {
    written matches Some(s) ==> forall|x: PageId| a <= x < b ==> #[trigger] s.contains(x)
}

/// Page storage backend.
///
/// The tree reads and writes its pages through this trait, so that the same
/// tree code runs over different backends. An implementation whose storage is
/// asynchronous waits inside the call.
pub trait AsyncPageProvider {
    /// The bytes of every page.
    spec fn pages(&self) -> Map<PageId, Seq<u8>>;

    /// The next page id to be handed out.
    spec fn next_id(&self) -> int;

    /// The root page id.
    spec fn root(&self) -> PageId;

    /// The page that names the root, if the provider keeps one. It is no page of the tree.
    spec fn naming(&self) -> Option<PageId>;

    /// Every page that differs from `base` is on the provider's list of written pages,
    /// as it stands. A provider without such a list says nothing by this.
    spec fn covers(&self, base: Map<PageId, Seq<u8>>) -> bool;

    /// The pages on the provider's list of written pages, if it keeps one.
    spec fn written(&self) -> Option<Set<PageId>>;

    /// Read a page by ID. Returns None if page doesn't exist.
    fn read_page(&self, page_id: PageId) -> (r: Option<Page>)
        ensures
            match r {
                Some(p) => self.pages().contains_key(page_id) && bytes_view(p)
                    == self.pages()[page_id],
                None => !self.pages().contains_key(page_id),
            },
    ;

    /// Write a page. Creates if not exists, updates if exists.
    fn write_page(&mut self, page_id: PageId, page: Page)
        ensures
            final(self).pages() == old(self).pages().insert(page_id, bytes_view(page)),
            final(self).written() == with_page(old(self).written(), page_id),
            final(self).next_id() == old(self).next_id(),
            final(self).root() == old(self).root(),
            final(self).naming() == old(self).naming(),
            forall|base: Map<PageId, Seq<u8>>| #[trigger]
                old(self).covers(base) ==> final(self).covers(base),
    ;

    /// Allocate a new page ID.
    fn alloc_page_id(&mut self) -> (r: PageId)
        requires
            old(self).next_id() < u64::MAX,
        ensures
            r == old(self).next_id(),
            final(self).written() == old(self).written(),
            final(self).next_id() == old(self).next_id() + 1,
            final(self).pages() == old(self).pages(),
            final(self).root() == old(self).root(),
            final(self).naming() == old(self).naming(),
            forall|base: Map<PageId, Seq<u8>>| #[trigger]
                old(self).covers(base) ==> final(self).covers(base),
    ;

    /// Get the root page ID (for B+Tree metadata).
    fn root_page_id(&self) -> (r: PageId)
        ensures
            r == self.root(),
    ;

    /// Set the root page ID, and write the page that names it.
    fn set_root_page_id(&mut self, page_id: PageId)
        ensures
            final(self).root() == page_id,
            final(self).written() == (match old(self).naming() {
                Some(x) => with_page(old(self).written(), x),
                None => old(self).written(),
            }),
            final(self).naming() == old(self).naming(),
            final(self).pages() == with_root(old(self).pages(), old(self).naming(), page_id),
            final(self).next_id() == old(self).next_id(),
            forall|base: Map<PageId, Seq<u8>>| #[trigger]
                old(self).covers(base) ==> final(self).covers(base),
    ;
}

/// In-memory page provider. Suitable for testing and single-node usage.
pub struct InMemoryPageProvider {
    pages: HashMap<PageId, Page>,
    next_page_id: u64,
    root: u64,
}

impl InMemoryPageProvider {
    pub fn new() -> (r: Self)
        ensures
            r.pages() == Map::<PageId, Seq<u8>>::empty(),
            r.next_id() == 1,
            r.root() == 0,
            r.naming() is None,
    {
        broadcast use vstd::std_specs::hash::group_hash_axioms;

        let r = InMemoryPageProvider { pages: HashMap::new(), next_page_id: 1, root: 0 };
        assert(r.pages() =~= Map::<PageId, Seq<u8>>::empty());
        r
    }

    pub fn page_count(&self) -> (r: usize)
        ensures
            r == self.pages().dom().len(),
    {
        broadcast use vstd::std_specs::hash::group_hash_axioms;

        assert(self.pages().dom() =~= self.pages@.dom());
        self.pages.len()
    }
}

impl Default for InMemoryPageProvider {
    fn default() -> (r: Self)
        ensures
            r.pages() == Map::<PageId, Seq<u8>>::empty(),
            r.next_id() == 1,
            r.root() == 0,
            r.naming() is None,
    {
        InMemoryPageProvider::new()
    }
}

impl AsyncPageProvider for InMemoryPageProvider {
    closed spec fn pages(&self) -> Map<PageId, Seq<u8>> {
        self.pages@.map_values(|p: Page| bytes_view(p))
    }

    closed spec fn next_id(&self) -> int {
        self.next_page_id as int
    }

    closed spec fn root(&self) -> PageId {
        self.root
    }

    closed spec fn naming(&self) -> Option<PageId> {
        None
    }

    closed spec fn covers(&self, base: Map<PageId, Seq<u8>>) -> bool {
        true
    }

    closed spec fn written(&self) -> Option<Set<PageId>> {
        None
    }

    fn read_page(&self, page_id: PageId) -> (r: Option<Page>) {
        broadcast use vstd::std_specs::hash::group_hash_axioms;

        match self.pages.get(&page_id) {
            Some(p) => Some(p.clone()),
            None => None,
        }
    }

    fn write_page(&mut self, page_id: PageId, page: Page) {
        broadcast use vstd::std_specs::hash::group_hash_axioms;

        let ghost bytes = bytes_view(page);
        self.pages.insert(page_id, page);
        assert(self.pages() =~= old(self).pages().insert(page_id, bytes));
    }

    fn alloc_page_id(&mut self) -> (r: PageId) {
        let id: PageId = self.next_page_id;
        self.next_page_id = id + 1;
        id
    }

    fn root_page_id(&self) -> (r: PageId) {
        self.root
    }

    fn set_root_page_id(&mut self, page_id: PageId) {
        self.root = page_id;
    }
}

} // verus!
