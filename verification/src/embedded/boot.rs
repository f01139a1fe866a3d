//! Starting the engine: from nothing, or from the pages that storage holds.
use vstd::prelude::*;

use super::commit::{first_bad_size, law_commit_stores_meta, law_commit_stores_page, plan_lists,
    plan_pages, CommitPlan, BPTREE_ROOT_ID, DATA_BASE};
use super::inprocess::put_all;
use super::page_map::{find_page, store_page};
use super::registry::{PendingTxn, TxnRegistry};
use super::txn::{EmbeddedCompute, EmbeddedTxn};
use super::history::keeps_records;
use super::soundness::{cached_meta, lemma_sound_after, segment_sound, sound, staged_cached, unused};
use super::undo::{based, no_segment, rebase, UNDO_BASE};
use crate::active_reads::ActiveReads;
use crate::btree_meta::{btree_magic, btree_meta_bytes, law_btree_meta_round_trip, BtreeMeta, BTREE_META_PAGE_ID,
    BTREE_META_VERSION};
use crate::common::{bytes_view, is_io_error, page_bytes, Error, IoErrorKind, Page, PageId, Result, PAGE_SIZE};
use crate::layout::{u32_at, u64_at};
use crate::meta_page::{is_meta, is_meta_page, law_meta_round_trip, meta_of, not_meta, MetaFields, MetaPage, META_PAGE_ID};
use crate::key_order::key_top;
use crate::page_bptree::chain::sized;
use crate::page_bptree::node_page::{new_page, LeafRow, PAGE_TYPE_LEAF};
use crate::page_bptree::provider::AsyncPageProvider;
use crate::page_bptree::split::lemma_leaf_tree;
use crate::page_bptree::tree_check::MAX_LEVELS;
use crate::page_bptree::tree::{ids_below, lemma_the_tree, lemma_tree_page, rows_of, the_tree, tree_at,
    PageBPlusTree};
use crate::page_bptree::tree_model::{has_id, lemma_frame, ok, Tree};
use super::visibility::{undo_at, undo_here};
use crate::undo_pg::{undo_wf, UndoPtr};
use crate::text::{dec, parse_dec, parse_number};
use crate::txn_page_provider::{page_views, TxnPageProvider};
use std::collections::BTreeMap;

verus! {

broadcast use vstd::std_specs::btree::group_btree_axioms;

/// A setting that is a positive number, or its default.
pub open spec fn setting(text: Option<Seq<char>>, default: int) -> int {
    match text {
        Some(s) => match parse_dec(s, u64::MAX as int) {
            Some(v) => if v > 0 {
                v
            } else {
                default
            },
            None => default,
        },
        None => default,
    }
}

/// Reads a setting: a positive number, else the default.
pub fn positive_setting(text: Option<&str>, default: u64) -> (r: u64)
    ensures
        r == setting(
            match text {
                Some(s) => Some(s@),
                None => None,
            },
            default as int,
        ),
{
    match text {
        Some(s) => match parse_number(s, u64::MAX) {
            Some(v) => if v > 0 {
                v
            } else {
                default
            },
            None => default,
        },
        None => default,
    }
}

/// How long to wait before a page is asked for again: twice as long each time, at
/// most 50 milliseconds.
pub fn next_backoff_ms(ms: u64) -> (r: u64)
    requires
        ms <= 50,
    ensures
        r == (if 2 * ms < 50 {
            2 * ms
        } else {
            50
        }),
{
    if ms * 2 < 50 {
        ms * 2
    } else {
        50
    }
}

/// What a storage node answered to a request for a page.
#[derive(Debug)]
pub enum FetchReply {
    Page { page: Page, durable: u64 },
    NoPage,
    Failed,
}

/// What to do with the answer.
#[derive(Debug)]
pub enum FetchStep {
    Use(Page),
    Absent,
    AskAgain,
}

/// A page is used when the node holds everything up to `need`.
pub fn fetch_step(reply: FetchReply, need: u64) -> (r: FetchStep)
    ensures
        match reply {
            FetchReply::Page { page, durable } => if durable >= need {
                r == FetchStep::Use(page)
            } else {
                r is AskAgain
            },
            FetchReply::NoPage => r is Absent,
            FetchReply::Failed => r is AskAgain,
        },
{
    match reply {
        FetchReply::Page { page, durable } => {
            if durable >= need {
                FetchStep::Use(page)
            } else {
                FetchStep::AskAgain
            }
        },
        FetchReply::NoPage => FetchStep::Absent,
        FetchReply::Failed => FetchStep::AskAgain,
    }
}

/// Where a scan of all pages goes on, after a batch that ended with `last_id`.
pub fn next_scan_start(last_id: PageId) -> (r: PageId)
    ensures
        r == (if last_id < u64::MAX {
            last_id + 1
        } else {
            u64::MAX as int
        }),
{
    last_id.saturating_add(1)
}

/// The meta page of an engine that starts from nothing.
pub open spec fn first_meta() -> MetaFields {
    MetaFields {
        root_page_id: BPTREE_ROOT_ID,
        next_bptree_page_id: 11,
        next_data_page_id: DATA_BASE,
        next_undo_page_id: UNDO_BASE,
        undo_free: seq![],
        undo_history_head: 0,
        undo_history_tail: 0,
    }
}

impl EmbeddedCompute {
    /// An engine without rows. The transaction stages its first pages: the root of
    /// the tree, the page that names it, and the meta page.
    pub fn cold_start(read_lsn: u64, txn_id: u64) -> (r: (EmbeddedCompute, EmbeddedTxn))
        ensures
            r.0.wf(),
            r.0.tree.rows() == Map::<Seq<u8>, LeafRow>::empty(),
            r.0.tree.depth() == 0,
            r.0.tree.provider.root() == BPTREE_ROOT_ID,
            r.0.tree.provider.next_id() == BPTREE_ROOT_ID + 1,
            r.0.tree.provider.btree_meta_page_id == BTREE_META_PAGE_ID,
            r.0.tree.provider.dirty@ == Map::<u64, Page>::empty(),
            r.0.tree.provider.pages().dom() == set![BPTREE_ROOT_ID, BTREE_META_PAGE_ID],
            r.0.tree.tree() == (Tree::Leaf { id: BPTREE_ROOT_ID, entries: Seq::empty() }),
            r.0.registry.txns@ == Map::<u64, PendingTxn>::empty(),
            r.1.bptree_dirty@ == Map::<u64, Page>::empty(),
            r.1.undo == no_segment(),
            r.1.modified@ == Set::<Seq<u8>>::empty(),
            r.1.wf(),
            segment_sound(&r.1, &r.0),
            staged_cached(&r.1, &r.0),
            forall|floor: u64| #[trigger] sound(&r.0, floor),
            r.1.read_lsn == read_lsn,
            r.1.undo_txn_id == Some(txn_id),
            ({
                let d = page_views(r.1.dirty@);
                &&& d == r.0.pages()
                &&& d.dom() == set![BPTREE_ROOT_ID, BTREE_META_PAGE_ID, META_PAGE_ID]
                &&& d[BPTREE_ROOT_ID] == r.0.tree.provider.pages()[BPTREE_ROOT_ID]
                &&& d[BTREE_META_PAGE_ID] == btree_meta_bytes(BPTREE_ROOT_ID as int)
                &&& is_meta_page(d[META_PAGE_ID], first_meta())
            }),
    {
        let mut provider = TxnPageProvider::new(BPTREE_ROOT_ID + 1, BTREE_META_PAGE_ID);
        let root_page = new_page(PAGE_TYPE_LEAF, 0);
        provider.load_page(BPTREE_ROOT_ID, root_page.clone());
        provider.load_root(BPTREE_ROOT_ID);
        let tree = PageBPlusTree::with_provider(provider);
        proof {
            let m = tree.provider.pages();
            let t = Tree::Leaf { id: BPTREE_ROOT_ID, entries: Seq::empty() };
            lemma_leaf_tree(BPTREE_ROOT_ID, Seq::empty());
            reveal(ok);
            reveal(has_id);
            law_btree_meta_round_trip(BPTREE_ROOT_ID);
            assert(tree_at(m, BPTREE_ROOT_ID, 11, t, 0));
            assert(m.dom() =~= set![BPTREE_ROOT_ID, BTREE_META_PAGE_ID]);
            lemma_the_tree(m, BPTREE_ROOT_ID, 11, t, 0);
            assert(rows_of(t) =~= Map::<Seq<u8>, LeafRow>::empty());
        }
        let mut compute = EmbeddedCompute {
            tree,
            page_cache: BTreeMap::new(),
            active_reads: ActiveReads::new(),
            registry: TxnRegistry::new(),
        };
        let mut tx = EmbeddedTxn::begin(&mut compute, false, None, read_lsn, txn_id);
        proof {
            assert(compute.pages() =~= Map::empty());
            assert(page_views(tx.dirty@) =~= Map::empty());
        }
        tx.write_page(&mut compute, BPTREE_ROOT_ID, root_page);
        let bm = BtreeMeta { root_page_id: BPTREE_ROOT_ID };
        tx.write_page(&mut compute, BTREE_META_PAGE_ID, bm.encode());
        let meta = MetaPage {
            root_page_id: BPTREE_ROOT_ID,
            next_bptree_page_id: BPTREE_ROOT_ID + 1,
            next_data_page_id: DATA_BASE,
            next_undo_page_id: UNDO_BASE,
            undo_free: Vec::new(),
            undo_history_head: 0,
            undo_history_tail: 0,
        };
        assert(meta@ =~= first_meta());
        tx.write_page(&mut compute, META_PAGE_ID, meta.encode());
        proof {
            let d = page_views(tx.dirty@);
            assert(d.dom() =~= set![BPTREE_ROOT_ID, BTREE_META_PAGE_ID, META_PAGE_ID]);
            law_meta_round_trip(d[META_PAGE_ID], first_meta());
            assert(d =~= compute.pages());
        }
        (compute, tx)
    }

    /// Whether the engine's pages hold a tree that it can work on, as they do if they were
    /// stored by commits.
    pub fn has_tree(&self) -> (r: bool)
        requires
            sized(self.tree.provider.pages()),
        ensures
            r ==> self.tree.wf(),
            self.tree.wf() && self.tree.depth() <= MAX_LEVELS ==> r,
    {
        self.tree.forms_tree(
            self.tree.provider.next_page_id(),
            Some(self.tree.provider.btree_meta_page_id),
        )
    }

    /// An engine over the pages that storage holds; nothing when they have no meta
    /// page. The meta page comes along if it had to be brought up to date.
    ///
    /// The pages are taken as they are: what they hold is a tree only if what wrote
    /// them wrote a tree.
    #[verifier::spinoff_prover]
    pub fn recover(pages: &Vec<(PageId, Page)>) -> (r: Result<
        Option<(EmbeddedCompute, Option<MetaPage>)>,
    >)
        ensures
            recovered(put_all(Map::empty(), pages@, pages@.len() as int), r),
    {
        let mut cache: BTreeMap<u64, Page> = BTreeMap::new();
        let mut provider = TxnPageProvider::new(1, BTREE_META_PAGE_ID);
        let ghost empty = Map::<u64, Seq<u8>>::empty();
        assert(page_views(cache@) =~= empty);
        let n: usize = pages.len();
        let mut i: usize = 0;
        while i < n
            invariant
                n == pages@.len(),
                i <= n,
                empty == Map::<u64, Seq<u8>>::empty(),
                page_views(cache@) == put_all(empty, pages@, i as int),
                provider.pages() == put_all(empty, pages@, i as int),
                provider.btree_meta_page_id == BTREE_META_PAGE_ID,
                provider.dirty@ == Map::<u64, Page>::empty(),
            decreases n - i,
        {
            let e = &pages[i];
            store_page(&mut cache, e.0, e.1.clone());
            provider.load_page(e.0, e.1.clone());
            i += 1;
        }
        let mp = match find_page(&cache, META_PAGE_ID) {
            Some(p) => p,
            None => {
                return Ok(None);
            },
        };
        let mut meta = match MetaPage::decode(page_bytes(&mp)) {
            Ok(m) => m,
            Err(e) => {
                return Err(e);
            },
        };
        let ghost all = put_all(Map::empty(), pages@, pages@.len() as int);
        let ghost meta0 = meta@;
        assert(meta0 == meta_of(all[META_PAGE_ID]));
        provider.set_next_page_id(meta.next_bptree_page_id);
        let stale: bool = meta.next_undo_page_id < UNDO_BASE;
        match find_page(&cache, BTREE_META_PAGE_ID) {
            Some(p) => match BtreeMeta::decode(page_bytes(&p)) {
                Ok(bm) => provider.load_root(bm.root_page_id),
                Err(e) => {
                    return Err(e);
                },
            },
            None => provider.load_root(meta.root_page_id),
        }
        assert(provider.root() == stored_root(all));
        assert(provider.pages() == all.insert(
            BTREE_META_PAGE_ID,
            btree_meta_bytes(stored_root(all)),
        ));
        let compute = EmbeddedCompute {
            tree: PageBPlusTree::with_provider(provider),
            page_cache: cache,
            active_reads: ActiveReads::new(),
            registry: TxnRegistry::new(),
        };
        if stale {
            rebase(&mut meta);
            return Ok(Some((compute, Some(meta))));
        }
        Ok(Some((compute, None)))
    }
}

/// The page names a root.
pub open spec fn is_btree_meta(s: Seq<u8>) -> bool {
    s.len() == PAGE_SIZE && s.subrange(0, 8) == btree_magic() && u32_at(s, 8) == BTREE_META_VERSION
}

/// The error of a page that names no root.
pub open spec fn not_btree_meta<T>(s: Seq<u8>, r: Result<T>) -> bool {
    if s.len() != PAGE_SIZE {
        r matches Err(Error::InvalidPageSize(a, b)) && a == s.len() && b == PAGE_SIZE
    } else if s.subrange(0, 8) != btree_magic() {
        r matches Err(e) && is_io_error(e, IoErrorKind::InvalidData, "invalid btree meta magic"@)
    } else {
        r matches Err(e) && is_io_error(
            e,
            IoErrorKind::InvalidData,
            "unsupported btree meta version: "@ + dec(u32_at(s, 8)),
        )
    }
}

/// The outcome of starting from the stored pages `all`.
pub open spec fn recovered(
    all: Map<u64, Seq<u8>>,
    r: Result<Option<(EmbeddedCompute, Option<MetaPage>)>>,
) -> bool {
    if !all.contains_key(META_PAGE_ID) {
        r matches Ok(None)
    } else if !is_meta(all[META_PAGE_ID]) {
        not_meta(all[META_PAGE_ID], r)
    } else if all.contains_key(BTREE_META_PAGE_ID) && !is_btree_meta(all[BTREE_META_PAGE_ID]) {
        not_btree_meta(all[BTREE_META_PAGE_ID], r)
    } else {
        let meta = meta_of(all[META_PAGE_ID]);
        let root = stored_root(all);
        &&& r matches Ok(Some((c, fixed)))
        &&& c.pages() == all
        &&& c.tree.provider.pages() == all.insert(BTREE_META_PAGE_ID, btree_meta_bytes(root))
        &&& c.tree.provider.next_id() == meta.next_bptree_page_id
        &&& c.tree.provider.root() == root
        &&& c.tree.provider.btree_meta_page_id == BTREE_META_PAGE_ID
        &&& c.tree.provider.dirty@ == Map::<u64, Page>::empty()
        &&& c.active_reads.reads() == Map::<u64, u64>::empty()
        &&& c.registry.txns@ == Map::<u64, PendingTxn>::empty()
        &&& c.wf() == c.tree.wf()
        &&& if meta.next_undo_page_id < UNDO_BASE {
            fixed matches Some(m) && m@ == based(meta)
        } else {
            fixed is None
        }
    }
}

/// The root that stored pages name: in the page for it, else in the meta page.
pub open spec fn stored_root(all: Map<u64, Seq<u8>>) -> int {
    if all.contains_key(BTREE_META_PAGE_ID) {
        u64_at(all[BTREE_META_PAGE_ID], 12)
    } else {
        meta_of(all[META_PAGE_ID]).root_page_id as int
    }
}

/// Storage holds the engine's tree: its pages as they stand, its root and the id that
/// it gives out next.
pub open spec fn stores(storage: Map<u64, Seq<u8>>, c: &EmbeddedCompute) -> bool {
    &&& sized(storage)
    &&& forall|x: PageId| #[trigger]
        has_id(c.tree.tree(), x) ==> storage.contains_key(x) && storage[x]
            == c.tree.provider.pages()[x]
    &&& storage.contains_key(META_PAGE_ID)
    &&& is_meta(storage[META_PAGE_ID])
    &&& meta_of(storage[META_PAGE_ID]).next_bptree_page_id == c.tree.provider.next_id()
    &&& storage.contains_key(BTREE_META_PAGE_ID) ==> is_btree_meta(storage[BTREE_META_PAGE_ID])
    &&& stored_root(storage) == c.tree.provider.root()
}

/// An engine that starts from pages that hold a tree has the rows of that tree, and the
/// pages still hold it.
pub proof fn law_restart_finds_rows(
    storage: Map<u64, Seq<u8>>,
    before: EmbeddedCompute,
    r: Result<Option<(EmbeddedCompute, Option<MetaPage>)>>,
)
    requires
        before.tree.wf(),
        before.tree.provider.btree_meta_page_id == BTREE_META_PAGE_ID,
        stores(storage, &before),
        recovered(storage, r),
    ensures
        r matches Ok(Some((after, _))) && {
            &&& after.wf()
            &&& after.tree.tree() == before.tree.tree()
            &&& after.tree.rows() == before.tree.rows()
            &&& after.tree.depth() == before.tree.depth()
            &&& after.tree.provider.root() == before.tree.provider.root()
            &&& after.tree.provider.next_id() == before.tree.provider.next_id()
            &&& stores(storage, &after)
        },
{
    let after = r->Ok_0->Some_0.0;
    let m = before.tree.provider.pages();
    let m2 = after.tree.provider.pages();
    let root = before.tree.provider.root();
    let n = before.tree.provider.next_id();
    let (t, d) = the_tree(m, root, n);
    assert(tree_at(m, root, n, t, d));
    law_btree_meta_round_trip(root);
    assert(sized(m2));
    lemma_frame(t, m, m2, ids_below(n), ids_below(n), 0, key_top(), 0, d);
    assert(tree_at(m2, root, n, t, d));
    lemma_the_tree(m2, root, n, t, d);
}

/// The pages of the tree, with the page that names its root.
pub open spec fn tree_pages(c: &EmbeddedCompute) -> Map<PageId, Seq<u8>> {
    c.tree.provider.pages().restrict(
        Set::new(|x: PageId| has_id(c.tree.tree(), x) || x == BTREE_META_PAGE_ID),
    )
}

/// Page `x` as the transaction staged it, else as storage has it.
pub open spec fn at_hand(storage: Map<u64, Seq<u8>>, t: &EmbeddedTxn, x: PageId) -> Option<Seq<u8>> {
    if page_views(t.dirty@).contains_key(x) {
        Some(page_views(t.dirty@)[x])
    } else if storage.contains_key(x) {
        Some(storage[x])
    } else {
        None
    }
}

/// What a transaction that ends in the engine `c` finds of the tree of `c0`, in which it
/// began: but for the pages on its list, the tree's pages are at hand, and so is the page
/// that names its root, unless there is none.
pub open spec fn finds(
    storage: Map<u64, Seq<u8>>,
    t: &EmbeddedTxn,
    c0: &EmbeddedCompute,
) -> bool {
    let list = page_views(t.bptree_dirty@);
    &&& forall|x: PageId| #[trigger]
        has_id(c0.tree.tree(), x) && !list.contains_key(x) ==> at_hand(storage, t, x) == Some(
            c0.tree.provider.pages()[x],
        )
    &&& !list.contains_key(BTREE_META_PAGE_ID) ==> (at_hand(
        storage,
        t,
        BTREE_META_PAGE_ID,
    ) matches Some(s) ==> is_btree_meta(s) && u64_at(s, 12) == c0.tree.provider.root())
}

/// No page of the tree, nor the page that names its root, has an id under which the
/// commit writes something else: the meta page, or an undo page that it links.
pub open spec fn ids_apart(t: &EmbeddedTxn, c: &EmbeddedCompute, meta: MetaFields) -> bool {
    &&& !has_id(c.tree.tree(), META_PAGE_ID)
    &&& t.undo.first_page_id matches Some(first) ==> {
        &&& !has_id(c.tree.tree(), first) && first != BTREE_META_PAGE_ID
        &&& !has_id(c.tree.tree(), meta.undo_history_tail) && meta.undo_history_tail
            != BTREE_META_PAGE_ID
    }
}

proof fn lemma_sizes(
    storage: Map<u64, Seq<u8>>,
    pages: Seq<(PageId, Page)>,
    n: int,
)
    requires
        sized(storage),
        0 <= n <= pages.len(),
        first_bad_size(pages, 0) >= pages.len(),
    ensures
        sized(put_all(storage, pages, n)),
    decreases n,
{
    if n > 0 {
        lemma_sizes(storage, pages, n - 1);
        lemma_size_at(pages, 0, n - 1);
    }
}

proof fn lemma_size_at(pages: Seq<(PageId, Page)>, i: int, j: int)
    requires
        0 <= i <= j < pages.len(),
        first_bad_size(pages, i) >= pages.len(),
    ensures
        bytes_view(pages[j].1).len() == PAGE_SIZE,
    decreases j - i,
{
    if i < j {
        lemma_size_at(pages, i + 1, j);
    }
}

/// Once the pages of a commit are stored, storage holds the engine's tree, if the
/// transaction found the tree in which it began, and no other one wrote meanwhile.
pub proof fn law_commit_stores_tree(
    storage: Map<u64, Seq<u8>>,
    c0: EmbeddedCompute,
    t: EmbeddedTxn,
    c: EmbeddedCompute,
    plan: CommitPlan,
    meta: MetaFields,
)
    requires
        sized(storage),
        c0.tree.wf(),
        c0.tree.provider.btree_meta_page_id == BTREE_META_PAGE_ID,
        finds(storage, &t, &c0),
        c.tree.wf(),
        t.covers(&c, tree_pages(&c0)),
        plan_pages(plan, t, c, meta),
        first_bad_size(plan.pages@, 0) >= plan.pages@.len(),
        ids_apart(&t, &c, meta),
    ensures
        stores(put_all(storage, plan.pages@, plan.pages@.len() as int), &c),
{
    let after = put_all(storage, plan.pages@, plan.pages@.len() as int);
    let m = c.tree.provider.pages();
    let list = page_views(t.bptree_dirty@);
    let root = c.tree.provider.root();
    lemma_sizes(storage, plan.pages@, plan.pages@.len() as int);
    law_commit_stores_meta(storage, plan, t, c, meta);
    assert forall|x: PageId| #[trigger] has_id(c.tree.tree(), x) implies after.contains_key(x)
        && after[x] == m[x] by {
        law_commit_stores_page(storage, plan, t, c, meta, x);
        lemma_tree_page(&c.tree, x);
        if !list.contains_key(x) {
            assert(tree_pages(&c0).contains_key(x));
            assert(x != BTREE_META_PAGE_ID);
            assert(has_id(c0.tree.tree(), x));
        }
    }
    law_commit_stores_page(storage, plan, t, c, meta, BTREE_META_PAGE_ID);
    law_btree_meta_round_trip(root);
    law_btree_meta_round_trip(c0.tree.provider.root());
    if !list.contains_key(BTREE_META_PAGE_ID) {
        assert(tree_pages(&c0).contains_key(BTREE_META_PAGE_ID));
        assert(m[BTREE_META_PAGE_ID] == c0.tree.provider.pages()[BTREE_META_PAGE_ID]);
        assert(root == c0.tree.provider.root());
    }
}

/// A committed transaction survives a restart: an engine that starts from the pages in
/// storage has all rows that the tree had when the pages of the commit were stored.
///
/// The transaction began in the engine `c0` and ended in `c`; no other one wrote
/// meanwhile.
pub proof fn law_commit_survives_restart(
    storage: Map<u64, Seq<u8>>,
    c0: EmbeddedCompute,
    t: EmbeddedTxn,
    c: EmbeddedCompute,
    plan: CommitPlan,
    meta: MetaFields,
    r: Result<Option<(EmbeddedCompute, Option<MetaPage>)>>,
)
    requires
        sized(storage),
        c0.tree.wf(),
        c0.tree.provider.btree_meta_page_id == BTREE_META_PAGE_ID,
        finds(storage, &t, &c0),
        c.tree.wf(),
        t.covers(&c, tree_pages(&c0)),
        plan_pages(plan, t, c, meta),
        first_bad_size(plan.pages@, 0) >= plan.pages@.len(),
        ids_apart(&t, &c, meta),
        recovered(put_all(storage, plan.pages@, plan.pages@.len() as int), r),
    ensures
        r matches Ok(Some((after, _))) && {
            &&& after.wf()
            &&& after.tree.rows() == c.tree.rows()
            &&& after.tree.depth() == c.tree.depth()
            &&& after.tree.provider.root() == c.tree.provider.root()
            &&& after.tree.provider.next_id() == c.tree.provider.next_id()
            &&& stores(put_all(storage, plan.pages@, plan.pages@.len() as int), &after)
        },
{
    law_commit_stores_tree(storage, c0, t, c, plan, meta);
    law_restart_finds_rows(put_all(storage, plan.pages@, plan.pages@.len() as int), c, r);
}

/// A transaction that wrote nothing yet covers the tree as it stands.
pub proof fn law_begun_txn_covers(t: EmbeddedTxn, c: EmbeddedCompute)
    requires
        t.bptree_dirty@ == Map::<u64, Page>::empty(),
        c.tree.wf(),
        c.tree.provider.btree_meta_page_id == BTREE_META_PAGE_ID,
    ensures
        t.covers(&c, tree_pages(&c)),
{
    assert forall|x: PageId| has_id(c.tree.tree(), x) implies c.tree.provider.pages().contains_key(
        x,
    ) by {
        lemma_tree_page(&c.tree, x);
    }
    assert forall|x: PageId|
        has_id(c.tree.tree(), x) || x == BTREE_META_PAGE_ID implies #[trigger] page_views(
        t.bptree_dirty@,
    ).contains_key(x) || tree_pages(&c).contains_key(x) && tree_pages(&c)[x]
        == c.tree.provider.pages()[x] by {
        if has_id(c.tree.tree(), x) {
            lemma_tree_page(&c.tree, x);
        }
    }
}

/// A transaction over an engine that storage holds finds its tree, if it stages no page
/// of the tree by itself.
pub proof fn law_stored_tree_is_found(
    storage: Map<u64, Seq<u8>>,
    t: EmbeddedTxn,
    c0: EmbeddedCompute,
)
    requires
        stores(storage, &c0),
        forall|x: PageId|
            (#[trigger] page_views(t.dirty@).contains_key(x)) && !page_views(
                t.bptree_dirty@,
            ).contains_key(x) ==> !has_id(c0.tree.tree(), x) && x != BTREE_META_PAGE_ID,
    ensures
        finds(storage, &t, &c0),
{
}

/// The first transaction of an engine that starts from nothing finds the tree among the
/// pages that it staged, whatever storage holds.
pub proof fn law_first_tree_is_found(
    storage: Map<u64, Seq<u8>>,
    t0: EmbeddedTxn,
    t: EmbeddedTxn,
    c0: EmbeddedCompute,
)
    requires
        c0.tree.wf(),
        c0.tree.provider.btree_meta_page_id == BTREE_META_PAGE_ID,
        forall|x: PageId| #[trigger]
            has_id(c0.tree.tree(), x) || x == BTREE_META_PAGE_ID ==> page_views(
                t0.dirty@,
            ).contains_key(x) && page_views(t0.dirty@)[x] == c0.tree.provider.pages()[x],
        forall|x: PageId| #[trigger]
            page_views(t0.dirty@).contains_key(x) && !page_views(t.bptree_dirty@).contains_key(x)
                ==> page_views(t.dirty@).contains_key(x) && page_views(t.dirty@)[x] == page_views(
                t0.dirty@,
            )[x],
    ensures
        finds(storage, &t, &c0),
{
    law_btree_meta_round_trip(c0.tree.provider.root());
    assert(page_views(t0.dirty@).contains_key(BTREE_META_PAGE_ID)) by {
        assert(has_id(c0.tree.tree(), BTREE_META_PAGE_ID) || BTREE_META_PAGE_ID
            == BTREE_META_PAGE_ID);
    }
}

/// Storage holds the meta page and the undo pages that are cached, as they are cached.
pub open spec fn stores_undo(storage: Map<u64, Seq<u8>>, c: &EmbeddedCompute) -> bool {
    forall|x: u64| #[trigger]
        c.pages().contains_key(x) && (x == META_PAGE_ID || x >= UNDO_BASE) ==> storage.contains_key(
            x,
        ) && storage[x] == c.pages()[x]
}

/// Once the pages of a commit are stored and cached, storage holds the meta page and the
/// undo pages as they are cached, if it did before; of the pages that the commit writes
/// it need not.
pub proof fn law_commit_stores_undo(
    storage: Map<u64, Seq<u8>>,
    c: EmbeddedCompute,
    plan: CommitPlan,
    after: EmbeddedCompute,
)
    requires
        after.pages() == put_all(c.pages(), plan.pages@, plan.pages@.len() as int),
        forall|x: u64| #[trigger]
            c.pages().contains_key(x) && (x == META_PAGE_ID || x >= UNDO_BASE) && !plan_lists(
                plan,
                x,
            ) ==> storage.contains_key(x) && storage[x] == c.pages()[x],
    ensures
        stores_undo(put_all(storage, plan.pages@, plan.pages@.len() as int), &after),
{
    let n = plan.pages@.len() as int;
    let stored = put_all(storage, plan.pages@, n);
    assert forall|x: u64| #[trigger]
        after.pages().contains_key(x) && (x == META_PAGE_ID || x >= UNDO_BASE) implies stored.contains_key(
        x,
    ) && stored[x] == after.pages()[x] by {
        lemma_put_alike(storage, c.pages(), plan.pages@, n, x);
    }
}

/// A page that is listed is the same after the list was put into either map; another one
/// is as it was.
proof fn lemma_put_alike(
    a: Map<u64, Seq<u8>>,
    b: Map<u64, Seq<u8>>,
    pages: Seq<(PageId, Page)>,
    n: int,
    x: u64,
)
    requires
        0 <= n <= pages.len(),
    ensures
        ({
            let listed = exists|i: int| 0 <= i < n && (#[trigger] pages[i]).0 == x;
            let a2 = put_all(a, pages, n);
            let b2 = put_all(b, pages, n);
            if listed {
                a2.contains_key(x) && b2.contains_key(x) && a2[x] == b2[x]
            } else {
                a2.contains_key(x) == a.contains_key(x) && a2[x] == a[x] && b2.contains_key(x)
                    == b.contains_key(x) && b2[x] == b[x]
            }
        }),
    decreases n,
{
    if n > 0 {
        lemma_put_alike(a, b, pages, n - 1, x);
        if exists|i: int| 0 <= i < n - 1 && (#[trigger] pages[i]).0 == x {
            let i = choose|i: int| 0 <= i < n - 1 && (#[trigger] pages[i]).0 == x;
            assert(0 <= i < n && pages[i].0 == x);
        }
        if exists|i: int| 0 <= i < n && (#[trigger] pages[i]).0 == x {
            let i = choose|i: int| 0 <= i < n && (#[trigger] pages[i]).0 == x;
            if i < n - 1 {
                assert(0 <= i < n - 1 && pages[i].0 == x);
            }
        } else {
            assert(pages[n - 1].0 != x);
        }
    }
}

/// An engine that starts over from stored pages is sound, if the one before it was: every
/// snapshot that could read its rows can read them after the restart.
pub proof fn law_restart_keeps_sound(
    storage: Map<u64, Seq<u8>>,
    before: EmbeddedCompute,
    r: Result<Option<(EmbeddedCompute, Option<MetaPage>)>>,
    floor: u64,
)
    requires
        before.tree.wf(),
        before.tree.provider.btree_meta_page_id == BTREE_META_PAGE_ID,
        stores(storage, &before),
        stores_undo(storage, &before),
        sound(&before, floor),
        recovered(storage, r),
    ensures
        r matches Ok(Some((after, _))) && sound(&after, floor) && after.wf() && after.tree.rows()
            == before.tree.rows(),
{
    law_restart_finds_rows(storage, before, r);
    let after = r->Ok_0->Some_0.0;
    let free = unused(cached_meta(&before));
    assert(keeps_records(before.pages(), after.pages(), free)) by {
        assert forall|u: UndoPtr| #[trigger]
            undo_here(before.pages(), u) && undo_wf(before.pages()[u.page_id]) && !free.contains(
                u.page_id,
            ) implies undo_here(after.pages(), u) && undo_wf(after.pages()[u.page_id]) && undo_at(
            after.pages(),
            u,
        ) == undo_at(before.pages(), u) by {
            assert(u.page_id >= UNDO_BASE);
            assert(before.pages().contains_key(u.page_id));
        }
    }
    assert(before.pages().contains_key(META_PAGE_ID));
    lemma_sound_after(before, after, floor);
}

/// A setting is the number that its text stands for, if there is one above zero, and else
/// its default.
pub proof fn law_setting(text: Option<Seq<char>>, default: int)
    requires
        default > 0,
    ensures
        setting(text, default) > 0,
        text is None ==> setting(text, default) == default,
        text is Some && parse_dec(text->0, u64::MAX as int) is None ==> setting(text, default)
            == default,
        text is Some && parse_dec(text->0, u64::MAX as int) == Some(0int) ==> setting(text, default)
            == default,
        text is Some && (parse_dec(text->0, u64::MAX as int) matches Some(v) && v > 0) ==> setting(
            text,
            default,
        ) == parse_dec(text->0, u64::MAX as int)->0,
{
}

/// A first engine gives out ids of its pages by kind: its root is page 10 and the next
/// tree page 11, data pages begin at 1000000 and undo pages at 2000000; no undo page is
/// free, and there is no history.
pub proof fn law_first_ids(m: MetaFields)
    requires
        m == first_meta(),
    ensures
        m.root_page_id == 10,
        m.next_bptree_page_id == 11,
        m.next_data_page_id == 1_000_000,
        m.next_undo_page_id == 2_000_000,
        m.undo_free.len() == 0,
        m.undo_history_head == 0,
        m.undo_history_tail == 0,
{
}

} // verus!
