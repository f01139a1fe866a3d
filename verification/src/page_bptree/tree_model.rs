//! The tree that a set of linked pages forms.
use vstd::prelude::*;

use super::node_page::{ascending, canonical, is_upper_bound, key_nums, node_of, PAGE_TYPE_INTERNAL,
    PAGE_TYPE_LEAF};
use crate::common::PageId;
use crate::key_order::{be_num, is_key};
use crate::layout::u64_at;

verus! {

/// Keys with their payloads, in order.
pub type Entries = Seq<(Seq<u8>, Seq<u8>)>;

/// A subtree: the page at its top and, below an internal page, the children.
pub enum Tree {
    Leaf { id: PageId, entries: Entries },
    Node { id: PageId, entries: Entries, kids: Seq<Tree> },
}

impl Tree {
    pub open spec fn id(self) -> PageId {
        match self {
            Tree::Leaf { id, .. } => id,
            Tree::Node { id, .. } => id,
        }
    }

    pub open spec fn entries(self) -> Entries {
        match self {
            Tree::Leaf { entries, .. } => entries,
            Tree::Node { entries, .. } => entries,
        }
    }
}

/// Page `x` is a page of the subtree.
#[verifier::opaque]
pub open spec fn has_id(t: Tree, x: PageId) -> bool
    decreases t,
{
    match t {
        Tree::Leaf { id, .. } => x == id,
        Tree::Node { id, kids, .. } => x == id || exists|i: int|
            #![trigger kids[i]]
            0 <= i < kids.len() && has_id(kids[i], x),
    }
}

/// Page `x` is a page of one of the subtrees.
pub open spec fn any_has_id(kids: Seq<Tree>, x: PageId) -> bool {
    exists|i: int| 0 <= i < kids.len() && #[trigger] has_id(kids[i], x)
}

/// The leftmost leaf.
#[verifier::opaque]
pub open spec fn first_leaf(t: Tree) -> PageId
    decreases t,
{
    match t {
        Tree::Leaf { id, .. } => id,
        Tree::Node { kids, id, .. } => if kids.len() > 0 {
            first_leaf(kids[0])
        } else {
            id
        },
    }
}

/// The lower limit of child `i`; the upper limit of child `i - 1`.
pub open spec fn bound(e: Entries, lo: int, hi: int, i: int) -> int {
    if i <= 0 {
        lo
    } else if i > e.len() {
        hi
    } else {
        be_num(e[i - 1].0)
    }
}

/// The leaf that follows the leaves of child `i`.
#[verifier::opaque]
pub open spec fn next_of(kids: Seq<Tree>, next: PageId, i: int) -> PageId {
    if 0 <= i && i + 1 < kids.len() {
        first_leaf(kids[i + 1])
    } else {
        next
    }
}

/// The high key of a page does not cut off keys below `hi`.
pub open spec fn high_ok(high: Option<Seq<u8>>, hi: int) -> bool {
    high matches Some(h) ==> is_key(h) && be_num(h) >= hi
}

/// The keys are ascending and in `[lo, hi)`.
pub open spec fn keys_ok(e: Entries, lo: int, hi: int) -> bool {
    &&& ascending(key_nums(e))
    &&& forall|i: int| 0 <= i < e.len() ==> is_key((#[trigger] e[i]).0)
    &&& forall|i: int| 0 <= i < e.len() ==> lo <= be_num((#[trigger] e[i]).0) < hi
}

/// The separators are ascending and strictly inside `(lo, hi)`, and each
/// names the child to its right.
pub open spec fn seps_ok(e: Entries, kids: Seq<Tree>, lo: int, hi: int) -> bool {
    &&& lo < hi
    &&& kids.len() == e.len() + 1
    &&& ascending(key_nums(e))
    &&& forall|i: int| 0 <= i < e.len() ==> is_key((#[trigger] e[i]).0)
    &&& forall|i: int| 0 <= i < e.len() ==> lo < be_num((#[trigger] e[i]).0) < hi
    &&& forall|i: int| 0 <= i < e.len() ==> #[trigger] link_at(e, kids, i)
}

/// Separator `i` names the child to its right.
#[verifier::opaque]
pub open spec fn link_at(e: Entries, kids: Seq<Tree>, i: int) -> bool {
    u64_at(e[i].1, 0) == kids[i + 1].id()
}

pub proof fn lemma_next_of(kids: Seq<Tree>, next: PageId, i: int)
    ensures
        0 <= i && i + 1 < kids.len() ==> next_of(kids, next, i) == first_leaf(kids[i + 1]),
        i + 1 >= kids.len() ==> next_of(kids, next, i) == next,
{
    reveal(next_of);
}

/// Page `id` of `m` is well laid out.
pub open spec fn page_ok(m: Map<PageId, Seq<u8>>, own: Set<PageId>, id: PageId) -> bool {
    &&& id != 0
    &&& own.contains(id)
    &&& m.contains_key(id)
    &&& canonical(m[id])
}

/// Page `id` is a leaf with these entries.
pub open spec fn leaf_page_ok(
    m: Map<PageId, Seq<u8>>,
    own: Set<PageId>,
    id: PageId,
    e: Entries,
    hi: int,
    next: PageId,
) -> bool {
    &&& page_ok(m, own, id)
    &&& node_of(m[id]).page_type == PAGE_TYPE_LEAF
    &&& node_of(m[id]).entries == e
    &&& node_of(m[id]).next_leaf == (if next == 0 {
        None
    } else {
        Some(next)
    })
    &&& high_ok(node_of(m[id]).high_key, hi)
    &&& node_of(m[id]).prev_leaf matches Some(p) ==> own.contains(p)
}

/// Page `id` is an internal page with these entries and this leftmost child.
pub open spec fn node_page_ok(
    m: Map<PageId, Seq<u8>>,
    own: Set<PageId>,
    id: PageId,
    e: Entries,
    left: PageId,
) -> bool {
    &&& page_ok(m, own, id)
    &&& node_of(m[id]).page_type == PAGE_TYPE_INTERNAL
    &&& node_of(m[id]).entries == e
    &&& node_of(m[id]).left_child == left
}

/// The pages of `m` form the subtree `t`, whose keys lie in `[lo, hi)`, whose
/// leaves are all `depth` levels down and whose last leaf links to `next`.
#[verifier::opaque]
pub open spec fn ok(
    t: Tree,
    m: Map<PageId, Seq<u8>>,
    own: Set<PageId>,
    lo: int,
    hi: int,
    next: PageId,
    depth: nat,
) -> bool
    decreases t,
{
    match t {
        Tree::Leaf { id, entries } => {
            &&& depth == 0
            &&& lo < hi
            &&& keys_ok(entries, lo, hi)
            &&& leaf_page_ok(m, own, id, entries, hi, next)
        },
        Tree::Node { id, entries, kids } => {
            &&& depth > 0
            &&& kids.len() > 0
            &&& node_page_ok(m, own, id, entries, kids[0].id())
            &&& seps_ok(entries, kids, lo, hi)
            &&& forall|i: int|
                #![trigger kids[i]]
                0 <= i < kids.len() ==> ok(
                    kids[i],
                    m,
                    own,
                    bound(entries, lo, hi, i),
                    bound(entries, lo, hi, i + 1),
                    next_of(kids, next, i),
                    (depth - 1) as nat,
                )
        },
    }
}

/// The children of an internal page, without the page itself.
pub open spec fn kids_ok(
    entries: Entries,
    kids: Seq<Tree>,
    m: Map<PageId, Seq<u8>>,
    own: Set<PageId>,
    lo: int,
    hi: int,
    next: PageId,
    depth: nat,
) -> bool {
    &&& depth > 0
    &&& kids.len() > 0
    &&& seps_ok(entries, kids, lo, hi)
    &&& forall|i: int|
        #![trigger kids[i]]
        0 <= i < kids.len() ==> ok(
            kids[i],
            m,
            own,
            bound(entries, lo, hi, i),
            bound(entries, lo, hi, i + 1),
            next_of(kids, next, i),
            (depth - 1) as nat,
        )
}

/// No page occurs twice.
#[verifier::opaque]
pub open spec fn distinct(t: Tree) -> bool
    decreases t,
{
    match t {
        Tree::Leaf { .. } => true,
        Tree::Node { id, kids, .. } => {
            &&& forall|i: int| #![trigger kids[i]] 0 <= i < kids.len() ==> distinct(kids[i])
            &&& forall|i: int| 0 <= i < kids.len() ==> !(#[trigger] has_id(kids[i], id))
            &&& forall|i: int, j: int, x: PageId|
                0 <= i < j < kids.len() && #[trigger] has_id(kids[i], x) ==> !(#[trigger] has_id(
                    kids[j],
                    x,
                ))
        },
    }
}

/// No page occurs twice among the subtrees.
pub open spec fn kids_distinct(kids: Seq<Tree>) -> bool {
    &&& forall|i: int| #![trigger kids[i]] 0 <= i < kids.len() ==> distinct(kids[i])
    &&& forall|i: int, j: int, x: PageId|
        0 <= i < j < kids.len() && #[trigger] has_id(kids[i], x) ==> !(#[trigger] has_id(
            kids[j],
            x,
        ))
}

/// The number of separators not above `k`.
pub open spec fn route(ks: Seq<int>, k: int) -> int
    decreases ks.len(),
{
    if ks.len() == 0 {
        0
    } else if ks.last() <= k {
        ks.len() as int
    } else {
        route(ks.drop_last(), k)
    }
}

/// The payload of key `k` among the entries of a leaf.
pub open spec fn leaf_get(e: Entries, k: int) -> Option<Seq<u8>> {
    if exists|i: int| 0 <= i < e.len() && be_num((#[trigger] e[i]).0) == k {
        Some(e[choose|i: int| 0 <= i < e.len() && be_num((#[trigger] e[i]).0) == k].1)
    } else {
        None
    }
}

/// The payload of key `k` in the subtree.
#[verifier::opaque]
pub open spec fn lookup(t: Tree, k: int) -> Option<Seq<u8>>
    decreases t,
{
    match t {
        Tree::Leaf { entries, .. } => leaf_get(entries, k),
        Tree::Node { entries, kids, .. } => {
            let r = route(key_nums(entries), k);
            if 0 <= r < kids.len() {
                lookup(kids[r], k)
            } else {
                None
            }
        },
    }
}

/// The leaf that key `k` belongs to, with its limits and successor.
pub struct LeafPos {
    pub id: PageId,
    pub entries: Entries,
    pub lo: int,
    pub hi: int,
    pub next: PageId,
}

#[verifier::opaque]
pub open spec fn leaf_for(t: Tree, k: int, lo: int, hi: int, next: PageId) -> LeafPos
    decreases t,
{
    match t {
        Tree::Leaf { id, entries } => LeafPos { id, entries, lo, hi, next },
        Tree::Node { entries, kids, id } => {
            let r = route(key_nums(entries), k);
            if 0 <= r < kids.len() {
                leaf_for(
                    kids[r],
                    k,
                    bound(entries, lo, hi, r),
                    bound(entries, lo, hi, r + 1),
                    next_of(kids, next, r),
                )
            } else {
                LeafPos { id, entries, lo, hi, next }
            }
        },
    }
}

pub proof fn lemma_route(ks: Seq<int>, k: int)
    requires
        ascending(ks),
    ensures
        is_upper_bound(ks, k, route(ks, k)),
    decreases ks.len(),
{
    if ks.len() > 0 && ks.last() > k {
        let d = ks.drop_last();
        assert(ascending(d)) by {
            assert forall|i: int, j: int| 0 <= i < j < d.len() implies #[trigger] d[i]
                < #[trigger] d[j] by {
                assert(ks[i] < ks[j]);
            }
        }
        lemma_route(d, k);
        let r = route(d, k);
        assert forall|i: int| 0 <= i < r implies #[trigger] ks[i] <= k by {
            assert(d[i] <= k);
        }
        assert forall|i: int| r <= i < ks.len() implies k < #[trigger] ks[i] by {
            if i < d.len() {
                assert(k < d[i]);
            }
        }
    } else if ks.len() > 0 {
        let n = ks.len() - 1;
        assert forall|i: int| 0 <= i < ks.len() implies #[trigger] ks[i] <= k by {
            if i < n {
                assert(ks[i] < ks[n]);
            }
        }
    }
}

/// Only one position has the separators not above `k` before it and the others after it.
pub proof fn lemma_route_unique(ks: Seq<int>, k: int, r: int)
    requires
        ascending(ks),
        is_upper_bound(ks, k, r),
    ensures
        route(ks, k) == r,
{
    lemma_route(ks, k);
    let q = route(ks, k);
    if q < r {
        assert(ks[q] <= k);
    } else if r < q {
        assert(ks[r] <= k);
    }
}

pub proof fn lemma_leaf_get(e: Entries, i: int)
    requires
        ascending(key_nums(e)),
        0 <= i < e.len(),
    ensures
        leaf_get(e, be_num(e[i].0)) == Some(e[i].1),
{
    let k = be_num(e[i].0);
    let j = choose|j: int| 0 <= j < e.len() && be_num((#[trigger] e[j]).0) == k;
    let ks = key_nums(e);
    assert(ks[i] == k && ks[j] == k);
    if i < j {
        assert(ks[i] < ks[j]);
    }
    if j < i {
        assert(ks[j] < ks[i]);
    }
}

pub proof fn lemma_has_top(t: Tree)
    ensures
        has_id(t, t.id()),
{
    reveal(has_id);
}

pub proof fn lemma_has_first(t: Tree)
    ensures
        has_id(t, first_leaf(t)),
    decreases t,
{
    reveal(has_id);
    reveal(first_leaf);
    match t {
        Tree::Leaf { .. } => {},
        Tree::Node { kids, .. } => {
            if kids.len() > 0 {
                lemma_has_first(kids[0]);
                assert(has_id(kids[0], first_leaf(t)));
            }
        },
    }
}

/// Changes elsewhere leave a subtree as it is.
pub proof fn lemma_frame(
    t: Tree,
    m: Map<PageId, Seq<u8>>,
    m2: Map<PageId, Seq<u8>>,
    own: Set<PageId>,
    own2: Set<PageId>,
    lo: int,
    hi: int,
    next: PageId,
    depth: nat,
)
    requires
        ok(t, m, own, lo, hi, next, depth),
        forall|x: PageId| #[trigger] has_id(t, x) ==> m2.contains_key(x) && m2[x] == m[x],
        own.subset_of(own2),
    ensures
        ok(t, m2, own2, lo, hi, next, depth),
    decreases t,
{
    reveal(ok);
    reveal(has_id);
    lemma_has_top(t);
    match t {
        Tree::Leaf { .. } => {},
        Tree::Node { id, entries, kids } => {
            assert forall|i: int| #![trigger kids[i]] 0 <= i < kids.len() implies ok(
                kids[i],
                m2,
                own2,
                bound(entries, lo, hi, i),
                bound(entries, lo, hi, i + 1),
                next_of(kids, next, i),
                (depth - 1) as nat,
            ) by {
                assert forall|x: PageId| #[trigger] has_id(kids[i], x) implies m2.contains_key(x)
                    && m2[x] == m[x] by {
                    assert(has_id(t, x));
                }
                lemma_frame(
                    kids[i],
                    m,
                    m2,
                    own,
                    own2,
                    bound(entries, lo, hi, i),
                    bound(entries, lo, hi, i + 1),
                    next_of(kids, next, i),
                    (depth - 1) as nat,
                );
            }
        },
    }
}

/// Every page of the subtree is owned and present.
pub proof fn lemma_ids_owned(
    t: Tree,
    m: Map<PageId, Seq<u8>>,
    own: Set<PageId>,
    lo: int,
    hi: int,
    next: PageId,
    depth: nat,
    x: PageId,
)
    requires
        ok(t, m, own, lo, hi, next, depth),
        has_id(t, x),
    ensures
        own.contains(x),
        m.contains_key(x),
        x != 0,
        canonical(m[x]),
    decreases t,
{
    reveal(ok);
    reveal(has_id);
    match t {
        Tree::Leaf { .. } => {},
        Tree::Node { id, entries, kids } => {
            if x != id {
                let i = choose|i: int|
                    #![trigger kids[i]]
                    0 <= i < kids.len() && has_id(kids[i], x);
                lemma_ids_owned(
                    kids[i],
                    m,
                    own,
                    bound(entries, lo, hi, i),
                    bound(entries, lo, hi, i + 1),
                    next_of(kids, next, i),
                    (depth - 1) as nat,
                    x,
                );
            }
        },
    }
}

pub proof fn lemma_bounds(e: Entries, kids: Seq<Tree>, lo: int, hi: int, i: int)
    requires
        seps_ok(e, kids, lo, hi),
        0 <= i < kids.len(),
    ensures
        bound(e, lo, hi, i) < bound(e, lo, hi, i + 1),
        lo <= bound(e, lo, hi, i),
        bound(e, lo, hi, i + 1) <= hi,
{
    let ks = key_nums(e);
    if 0 < i < e.len() {
        assert(ks[i - 1] < ks[i]);
    }
}

/// A key routed to child `r` lies in that child's limits, and conversely.
pub proof fn lemma_route_bounds(e: Entries, kids: Seq<Tree>, lo: int, hi: int, k: int)
    requires
        seps_ok(e, kids, lo, hi),
        lo <= k < hi,
    ensures
        0 <= route(key_nums(e), k) < kids.len(),
        bound(e, lo, hi, route(key_nums(e), k)) <= k < bound(
            e,
            lo,
            hi,
            route(key_nums(e), k) + 1,
        ),
{
    let ks = key_nums(e);
    lemma_route(ks, k);
    let r = route(ks, k);
    if r > 0 {
        assert(ks[r - 1] <= k);
    }
    if r < e.len() {
        assert(k < ks[r]);
    }
}

pub proof fn lemma_route_from_bounds(
    e: Entries,
    kids: Seq<Tree>,
    lo: int,
    hi: int,
    k: int,
    r: int,
)
    requires
        seps_ok(e, kids, lo, hi),
        0 <= r < kids.len(),
        bound(e, lo, hi, r) <= k < bound(e, lo, hi, r + 1),
    ensures
        route(key_nums(e), k) == r,
{
    let ks = key_nums(e);
    assert(is_upper_bound(ks, k, r)) by {
        assert forall|i: int| 0 <= i < r implies #[trigger] ks[i] <= k by {
            if i < r - 1 {
                assert(ks[i] < ks[r - 1]);
            }
        }
        assert forall|i: int| r <= i < ks.len() implies k < #[trigger] ks[i] by {
            if r < i {
                assert(ks[r] < ks[i]);
            }
        }
    }
    lemma_route_unique(ks, k, r);
}

} // verus!
