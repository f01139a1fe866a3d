//! The leaves in order, linked from left to right.
use vstd::prelude::*;

use super::node_page::{canonical, count_of, entry_key_at, key_to_high_key, lemma_canonical_bounds,
    lemma_canonical_table, node_of, page_header, write_header, NodeModel, HEADER_SIZE,
    PAGE_TYPE_LEAF};
use super::provider::AsyncPageProvider;
use super::split::{lemma_header_only, lemma_open_node, lemma_top_page};
use super::tree_model::{any_has_id, bound, distinct, first_leaf, has_id, high_ok, keys_ok, leaf_for,
    leaf_get, lemma_frame, lemma_has_first, lemma_has_top, lemma_ids_owned, lemma_next_of, lookup,
    next_of, ok, Entries, Tree};
use super::validate::{chain_page, is_leaf, last_key};
use super::validity::lemma_chain;
use crate::common::{bytes_view, page_bytes, page_from_vec, Page, PageId, PAGE_SIZE};
use crate::key_order::{be_num, is_key};
use crate::layout::copy_bytes;

verus! {

/// Furthest that a leaf hop sequence is followed.
pub const MAX_SCAN_LEAF_HOPS: usize = 8192;

/// The upper limit of the keys of page `x`.
pub open spec fn hi_of(t: Tree, x: PageId, lo: int, hi: int) -> int
    decreases t,
{
    match t {
        Tree::Leaf { .. } => hi,
        Tree::Node { id, entries, kids } => {
            let i = choose|i: int| 0 <= i < kids.len() && #[trigger] has_id(kids[i], x);
            if x == id || !(0 <= i < kids.len()) {
                hi
            } else {
                hi_of(kids[i], x, bound(entries, lo, hi, i), bound(entries, lo, hi, i + 1))
            }
        },
    }
}

/// Page `x` is a leaf whose keys are not below `k`.
pub open spec fn leaf_from(m: Map<PageId, Seq<u8>>, x: PageId, k: int) -> bool {
    &&& m.contains_key(x)
    &&& canonical(m[x])
    &&& node_of(m[x]).page_type == PAGE_TYPE_LEAF
    &&& forall|j: int|
        0 <= j < node_of(m[x]).entries.len() ==> is_key(
            (#[trigger] node_of(m[x]).entries[j]).0,
        ) && k <= be_num(node_of(m[x]).entries[j].0)
}

/// The number that a leaf stores as its successor.
pub open spec fn next_num(m: Map<PageId, Seq<u8>>, x: PageId) -> PageId {
    match node_of(m[x]).next_leaf {
        Some(n) => n,
        None => 0,
    }
}

proof fn lemma_first_leaf(
    t: Tree,
    m: Map<PageId, Seq<u8>>,
    own: Set<PageId>,
    lo: int,
    hi: int,
    next: PageId,
    depth: nat,
)
    requires
        ok(t, m, own, lo, hi, next, depth),
    ensures
        leaf_from(m, first_leaf(t), lo),
    decreases t,
{
    reveal(ok);
    reveal(first_leaf);
    match t {
        Tree::Leaf { .. } => {},
        Tree::Node { id, entries, kids } => {
            let c = kids[0];
            lemma_first_leaf(
                c,
                m,
                own,
                bound(entries, lo, hi, 0),
                bound(entries, lo, hi, 1),
                next_of(kids, next, 0),
                (depth - 1) as nat,
            );
        },
    }
}

/// The child that holds page `x`.
proof fn lemma_holder(id: PageId, e: Entries, kids: Seq<Tree>, x: PageId) -> (i: int)
    requires
        has_id(Tree::Node { id, entries: e, kids }, x),
        x != id,
    ensures
        0 <= i < kids.len(),
        has_id(kids[i], x),
        i == (choose|i: int| 0 <= i < kids.len() && #[trigger] has_id(kids[i], x)),
{
    super::split::lemma_has_node(id, e, kids, x);
    choose|i: int| 0 <= i < kids.len() && #[trigger] has_id(kids[i], x)
}

/// The successor of a leaf holds only keys from the leaf's upper limit on.
pub proof fn lemma_successor(
    t: Tree,
    m: Map<PageId, Seq<u8>>,
    own: Set<PageId>,
    lo: int,
    hi: int,
    next: PageId,
    depth: nat,
    x: PageId,
)
    requires
        ok(t, m, own, lo, hi, next, depth),
        has_id(t, x),
        node_of(m[x]).page_type == PAGE_TYPE_LEAF,
    ensures
        ({
            let l = next_num(m, x);
            let h = hi_of(t, x, lo, hi);
            ||| l == next && h == hi
            ||| has_id(t, l) && leaf_from(m, l, h)
        }),
        lo < hi_of(t, x, lo, hi) <= hi,
    decreases t,
{
    lemma_top_page(t, m, own, lo, hi, next, depth);
    match t {
        Tree::Leaf { .. } => {
            reveal(ok);
            reveal(has_id);
        },
        Tree::Node { id, entries, kids } => {
            let i = lemma_holder(id, entries, kids, x);
            let c = kids[i];
            let lo1 = bound(entries, lo, hi, i);
            let hi1 = bound(entries, lo, hi, i + 1);
            let next1 = next_of(kids, next, i);
            let d1 = (depth - 1) as nat;
            super::insert::lemma_kid(entries, kids, m, own, lo, hi, next, depth, i);
            super::tree_model::lemma_bounds(entries, kids, lo, hi, i);
            lemma_successor(c, m, own, lo1, hi1, next1, d1, x);
            let l = next_num(m, x);
            lemma_next_of(kids, next, i);
            if has_id(c, l) {
                assert(has_id(kids[i], l));
                assert(any_has_id(kids, l));
                super::split::lemma_has_node(id, entries, kids, l);
            }
            if i + 1 < kids.len() {
                super::insert::lemma_kid(entries, kids, m, own, lo, hi, next, depth, i + 1);
                lemma_first_leaf(
                    kids[i + 1],
                    m,
                    own,
                    hi1,
                    bound(entries, lo, hi, i + 2),
                    next_of(kids, next, i + 1),
                    d1,
                );
                lemma_has_first(kids[i + 1]);
                let f = first_leaf(kids[i + 1]);
                assert(has_id(kids[i + 1], f));
                assert(any_has_id(kids, f));
                super::split::lemma_has_node(id, entries, kids, f);
            }
        },
    }
}

/// The leftmost child of an internal page of the tree is in the tree.
pub proof fn lemma_left_child(
    t: Tree,
    m: Map<PageId, Seq<u8>>,
    own: Set<PageId>,
    lo: int,
    hi: int,
    next: PageId,
    depth: nat,
    x: PageId,
)
    requires
        ok(t, m, own, lo, hi, next, depth),
        has_id(t, x),
        node_of(m[x]).page_type != PAGE_TYPE_LEAF,
    ensures
        has_id(t, node_of(m[x]).left_child),
    decreases t,
{
    lemma_top_page(t, m, own, lo, hi, next, depth);
    match t {
        Tree::Leaf { .. } => {
            reveal(has_id);
        },
        Tree::Node { id, entries, kids } => {
            if x == id {
                lemma_has_top(kids[0]);
                assert(has_id(kids[0], kids[0].id()));
                assert(any_has_id(kids, kids[0].id()));
                super::split::lemma_has_node(id, entries, kids, kids[0].id());
            } else {
                let i = lemma_holder(id, entries, kids, x);
                super::insert::lemma_kid(entries, kids, m, own, lo, hi, next, depth, i);
                lemma_left_child(
                    kids[i],
                    m,
                    own,
                    bound(entries, lo, hi, i),
                    bound(entries, lo, hi, i + 1),
                    next_of(kids, next, i),
                    (depth - 1) as nat,
                    x,
                );
                let l = node_of(m[x]).left_child;
                assert(has_id(kids[i], l));
                assert(any_has_id(kids, l));
                super::split::lemma_has_node(id, entries, kids, l);
            }
        },
    }
}

/// The high key of a leaf may be set to anything from the leaf's upper limit on.
pub proof fn lemma_set_high(
    t: Tree,
    m: Map<PageId, Seq<u8>>,
    m2: Map<PageId, Seq<u8>>,
    own: Set<PageId>,
    lo: int,
    hi: int,
    next: PageId,
    depth: nat,
    x: PageId,
)
    requires
        ok(t, m, own, lo, hi, next, depth),
        distinct(t),
        has_id(t, x),
        node_of(m[x]).page_type == PAGE_TYPE_LEAF,
        m2 == m.insert(x, m2[x]),
        canonical(m2[x]),
        node_of(m2[x]) == (NodeModel { high_key: node_of(m2[x]).high_key, ..node_of(m[x]) }),
        high_ok(node_of(m2[x]).high_key, hi_of(t, x, lo, hi)),
    ensures
        ok(t, m2, own, lo, hi, next, depth),
    decreases t,
{
    lemma_top_page(t, m, own, lo, hi, next, depth);
    match t {
        Tree::Leaf { .. } => {
            reveal(ok);
            reveal(has_id);
        },
        Tree::Node { id, entries, kids } => {
            let j = lemma_holder(id, entries, kids, x);
            lemma_open_node(id, entries, kids);
            let d1 = (depth - 1) as nat;
            assert forall|i: int| #![trigger kids[i]] 0 <= i < kids.len() implies ok(
                kids[i],
                m2,
                own,
                bound(entries, lo, hi, i),
                bound(entries, lo, hi, i + 1),
                next_of(kids, next, i),
                d1,
            ) by {
                super::insert::lemma_kid(entries, kids, m, own, lo, hi, next, depth, i);
                let lo1 = bound(entries, lo, hi, i);
                let hi1 = bound(entries, lo, hi, i + 1);
                let next1 = next_of(kids, next, i);
                if i == j {
                    assert(distinct(kids[i]));
                    lemma_set_high(kids[i], m, m2, own, lo1, hi1, next1, d1, x);
                } else {
                    assert forall|y: PageId| #[trigger] has_id(
                        kids[i],
                        y,
                    ) implies m2.contains_key(y) && m2[y] == m[y] by {
                        lemma_ids_owned(kids[i], m, own, lo1, hi1, next1, d1, y);
                        if y == x {
                            if i < j {
                                assert(!has_id(kids[j], x));
                            } else {
                                assert(has_id(kids[j], x));
                                assert(!has_id(kids[i], x));
                            }
                        }
                    }
                    lemma_frame(kids[i], m, m2, own, own, lo1, hi1, next1, d1);
                }
            }
            assert(x != id) by {
                assert(any_has_id(kids, x));
            }
            reveal(ok);
        },
    }
}

/// Pages that are no leaves linking into the tree, and no pages of the tree, stay.
pub open spec fn chain_frame(m: Map<PageId, Seq<u8>>, m2: Map<PageId, Seq<u8>>, t: Tree) -> bool {
    forall|x: PageId|
        !has_id(t, x) && !stale(m, t, x) ==> (#[trigger] m2.contains_key(x) == m.contains_key(x))
            && m2[x] == m[x]
}

/// Page `x` is not in the tree but is a leaf whose successor is: a leaf that
/// was merged into a neighbour.
pub open spec fn stale(m: Map<PageId, Seq<u8>>, t: Tree, x: PageId) -> bool {
    m.contains_key(x) && node_of(m[x]).page_type == PAGE_TYPE_LEAF && (node_of(
        m[x],
    ).next_leaf matches Some(n) && has_id(t, n))
}

/// Pages outside the tree stay.
pub open spec fn pages_kept(m: Map<PageId, Seq<u8>>, m2: Map<PageId, Seq<u8>>, t: Tree) -> bool {
    forall|x: PageId|
        !has_id(t, x) ==> (#[trigger] m2.contains_key(x) == m.contains_key(x)) && m2[x] == m[x]
}

/// Every page has the page size.
pub open spec fn sized(m: Map<PageId, Seq<u8>>) -> bool {
    forall|x: PageId| #[trigger] m.contains_key(x) ==> m[x].len() == PAGE_SIZE
}

/// The first key of the page, as a high key.
pub fn first_key(page: &Page) -> (r: Option<[u8; crate::common::KEY_SIZE]>)
    requires
        canonical(bytes_view(*page)),
    ensures
        match r {
            Some(k) => node_of(bytes_view(*page)).entries.len() > 0 && k@ == node_of(
                bytes_view(*page),
            ).entries[0].0,
            None => node_of(bytes_view(*page)).entries.len() == 0,
        },
{
    let bytes = page_bytes(page);
    proof {
        lemma_canonical_table(bytes@);
        if node_of(bytes@).entries.len() > 0 {
            lemma_canonical_bounds(bytes@, 0);
        }
    }
    match entry_key_at(bytes, 0) {
        Some(k) => {
            assert(k@ == node_of(bytes@).entries[0].0);
            key_to_high_key(k)
        },
        None => None,
    }
}

/// Page `s2` is page `s` with another high key.
pub open spec fn high_replaced(s: Seq<u8>, s2: Seq<u8>, high: Option<Seq<u8>>) -> bool {
    &&& s2.len() == PAGE_SIZE
    &&& node_of(s2).page_type == node_of(s).page_type
    &&& node_of(s2).level == node_of(s).level
    &&& node_of(s2).prev_leaf == node_of(s).prev_leaf
    &&& node_of(s2).next_leaf == node_of(s).next_leaf
    &&& node_of(s2).left_child == node_of(s).left_child
    &&& node_of(s2).high_key == high
    &&& count_of(s2) == count_of(s)
    &&& forall|i: int| HEADER_SIZE <= i < PAGE_SIZE ==> s2[i] == s[i]
}

/// Writes a leaf's header with another high key.
pub fn write_high_key<P: AsyncPageProvider>(
    p: &mut P,
    id: PageId,
    page: &Page,
    high_key: Option<[u8; crate::common::KEY_SIZE]>,
)
    requires
        bytes_view(*page).len() == PAGE_SIZE,
    ensures
        final(p).root() == old(p).root(),
        final(p).naming() == old(p).naming(),
        forall|base: Map<PageId, Seq<u8>>| #[trigger]
            old(p).covers(base) ==> final(p).covers(base),
        final(p).next_id() == old(p).next_id(),
        final(p).pages() == old(p).pages().insert(id, final(p).pages()[id]),
        high_replaced(
            bytes_view(*page),
            final(p).pages()[id],
            match high_key {
                Some(k) => Some(k@),
                None => None,
            },
        ),
        canonical(bytes_view(*page)) ==> canonical(final(p).pages()[id]) && node_of(
            final(p).pages()[id],
        ) == (NodeModel {
            high_key: match high_key {
                Some(k) => Some(k@),
                None => None,
            },
            ..node_of(bytes_view(*page))
        }),
{
    let bytes = page_bytes(page);
    let mut header = page_header(bytes);
    header.high_key = high_key;
    let mut buf = copy_bytes(bytes);
    write_header(&mut buf, header);
    let ghost b = buf@;
    proof {
        if canonical(bytes@) {
            lemma_header_only(bytes@, b);
            assert(node_of(b) =~= (NodeModel {
                high_key: match high_key {
                    Some(k) => Some(k@),
                    None => None,
                },
                ..node_of(bytes@)
            }));
        }
    }
    p.write_page(id, page_from_vec(buf));
    assert(p.pages() =~= old(p).pages().insert(id, p.pages()[id]));
}

/// The first key of the leaf after leaf `x`, if there is one.
fn next_first_key<P: AsyncPageProvider>(
    p: &P,
    next_leaf: Option<PageId>,
    Ghost(t): Ghost<Tree>,
    Ghost(own): Ghost<Set<PageId>>,
    Ghost(hi): Ghost<int>,
    Ghost(depth): Ghost<nat>,
    Ghost(x): Ghost<PageId>,
) -> (r: Option<[u8; crate::common::KEY_SIZE]>)
    requires
        ok(t, p.pages(), own, 0, hi, 0, depth),
        has_id(t, x),
        node_of(p.pages()[x]).page_type == PAGE_TYPE_LEAF,
        next_leaf == node_of(p.pages()[x]).next_leaf,
    ensures
        high_ok(
            match r {
                Some(k) => Some(k@),
                None => None,
            },
            hi_of(t, x, 0, hi),
        ),
        next_leaf is None ==> r is None,
        next_leaf matches Some(n) ==> has_id(t, n) && (match r {
            Some(k) => node_of(p.pages()[n]).entries.len() > 0 && k@ == node_of(
                p.pages()[n],
            ).entries[0].0,
            None => node_of(p.pages()[n]).entries.len() == 0,
        }),
{
    proof {
        lemma_successor(t, p.pages(), own, 0, hi, 0, depth, x);
        lemma_ids_owned(t, p.pages(), own, 0, hi, 0, depth, x);
    }
    match next_leaf {
        Some(n) => {
            proof {
                assert(n != 0) by {
                    let s = p.pages()[x];
                    assert(node_of(s).next_leaf == super::node_page::link_of(
                        crate::layout::u64_at(s, 12),
                    ));
                }
                assert(leaf_from(p.pages(), n, hi_of(t, x, 0, hi)));
            }
            match p.read_page(n) {
                Some(page) => first_key(&page),
                None => None,
            }
        },
        None => None,
    }
}

/// The first key of leaf `x`, if it has one.
pub open spec fn first_of(m: Map<PageId, Seq<u8>>, x: PageId) -> Option<Seq<u8>> {
    if node_of(m[x]).entries.len() > 0 {
        Some(node_of(m[x]).entries[0].0)
    } else {
        None
    }
}

/// The first key of the leaf after leaf `x`, if there is one and it has a key.
pub open spec fn key_after(m: Map<PageId, Seq<u8>>, x: PageId) -> Option<Seq<u8>> {
    match node_of(m[x]).next_leaf {
        Some(n) => first_of(m, n),
        None => None,
    }
}

/// The leaf that leaf `x` names as its predecessor, if that one links to `x`
/// and `x` has a first key to hand to it.
pub open spec fn leaf_before(m: Map<PageId, Seq<u8>>, x: PageId) -> Option<PageId> {
    match node_of(m[x]).prev_leaf {
        Some(b) => if m.contains_key(b) && is_leaf(m, b) && node_of(m[b]).next_leaf == Some(x)
            && first_of(m, x) is Some {
            Some(b)
        } else {
            None
        },
        None => None,
    }
}

/// Pages `m2` are pages `m` with new high keys at both limits of leaf `x`: its
/// own is the first key of the next leaf, and that of the leaf before is the
/// first key of `x`.
pub open spec fn limits_repaired(
    m: Map<PageId, Seq<u8>>,
    m2: Map<PageId, Seq<u8>>,
    x: PageId,
) -> bool {
    &&& m2.contains_key(x)
    &&& high_replaced(m[x], m2[x], key_after(m, x))
    &&& leaf_before(m, x) matches Some(b) ==> m2.contains_key(b) && high_replaced(
        m[b],
        m2[b],
        first_of(m, x),
    )
    &&& forall|y: PageId|
        y != x && leaf_before(m, x) != Some(y) ==> (#[trigger] m2.contains_key(y)
            == m.contains_key(y)) && m2[y] == m[y]
}

/// After a delete in leaf `leaf_id`: its high key becomes the first key of its
/// successor, and its own first key becomes the high key of its predecessor.
#[verifier::spinoff_prover]
pub fn repair_leaf_boundary_after_delete<P: AsyncPageProvider>(
    p: &mut P,
    leaf_id: PageId,
    Ghost(t): Ghost<Tree>,
    Ghost(own): Ghost<Set<PageId>>,
    Ghost(hi): Ghost<int>,
    Ghost(depth): Ghost<nat>,
)
    requires
        ok(t, old(p).pages(), own, 0, hi, 0, depth),
        distinct(t),
        has_id(t, leaf_id),
        sized(old(p).pages()),
    ensures
        ok(t, final(p).pages(), own, 0, hi, 0, depth),
        final(p).root() == old(p).root(),
        final(p).naming() == old(p).naming(),
        forall|base: Map<PageId, Seq<u8>>| #[trigger]
            old(p).covers(base) ==> final(p).covers(base),
        final(p).next_id() == old(p).next_id(),
        sized(final(p).pages()),
        chain_frame(old(p).pages(), final(p).pages(), t),
        is_leaf(old(p).pages(), leaf_id) ==> limits_repaired(
            old(p).pages(),
            final(p).pages(),
            leaf_id,
        ),
        !is_leaf(old(p).pages(), leaf_id) ==> final(p).pages() == old(p).pages(),
{
    let ghost m0 = p.pages();
    proof {
        lemma_ids_owned(t, m0, own, 0, hi, 0, depth, leaf_id);
    }
    let leaf_page = p.read_page(leaf_id).unwrap();
    let header = page_header(page_bytes(&leaf_page));
    if header.page_type != PAGE_TYPE_LEAF {
        return;
    }
    proof {
        lemma_successor(t, m0, own, 0, hi, 0, depth, leaf_id);
        lemma_limits(t, m0, own, 0, hi, 0, depth, leaf_id);
        if first_of(m0, leaf_id) is Some {
            let k = node_of(m0[leaf_id]).entries[0].0;
            assert(be_num(k) < hi_of(t, leaf_id, 0, hi));
            assert(node_of(m0[leaf_id]).next_leaf != Some(leaf_id));
        }
    }
    let leaf_first = first_key(&leaf_page);
    let next_first = next_first_key(
        p,
        header.next_leaf,
        Ghost(t),
        Ghost(own),
        Ghost(hi),
        Ghost(depth),
        Ghost(leaf_id),
    );
    write_high_key(p, leaf_id, &leaf_page, next_first);
    let ghost m1 = p.pages();
    proof {
        lemma_set_high(t, m0, m1, own, 0, hi, 0, depth, leaf_id);
    }
    match (header.prev_leaf, leaf_first) {
        (Some(prev_id), Some(first)) => {
            match p.read_page(prev_id) {
                Some(prev_page) => {
                    let prev_header = page_header(page_bytes(&prev_page));
                    let links_here: bool = match prev_header.next_leaf {
                        Some(n) => n == leaf_id,
                        None => false,
                    };
                    if prev_header.page_type == PAGE_TYPE_LEAF && links_here {
                        write_high_key(p, prev_id, &prev_page, Some(first));
                        let ghost m2 = p.pages();
                        proof {
                            if has_id(t, prev_id) {
                                lemma_ids_owned(t, m1, own, 0, hi, 0, depth, prev_id);
                                lemma_ids_owned(t, m1, own, 0, hi, 0, depth, leaf_id);
                                lemma_successor(t, m1, own, 0, hi, 0, depth, prev_id);
                                assert(next_num(m1, prev_id) == leaf_id);
                                assert(leaf_from(m1, leaf_id, hi_of(t, prev_id, 0, hi)));
                                assert(node_of(m1[leaf_id]).entries[0].0 == first@);
                                lemma_set_high(t, m1, m2, own, 0, hi, 0, depth, prev_id);
                            } else {
                                assert(prev_id != leaf_id);
                                assert forall|x: PageId| #[trigger] has_id(
                                    t,
                                    x,
                                ) implies m2.contains_key(x) && m2[x] == m1[x] by {
                                    lemma_ids_owned(t, m1, own, 0, hi, 0, depth, x);
                                }
                                lemma_frame(t, m1, m2, own, own, 0, hi, 0, depth);
                            }
                        }
                    }
                },
                None => {},
            }
        },
        _ => {},
    }
}

/// The high keys of the first `n` leaves of the chain are the first keys of
/// the leaves after them.
pub open spec fn fresh_until(m: Map<PageId, Seq<u8>>, start: PageId, n: int) -> bool {
    forall|j: int|
        0 <= j < n ==> (#[trigger] chain_page(m, start, j) matches Some(x) ==> node_of(
            m[x],
        ).high_key == key_after(m, x))
}

/// Another high key leaves the chain as it is.
proof fn lemma_same_chain(
    m: Map<PageId, Seq<u8>>,
    m2: Map<PageId, Seq<u8>>,
    x: PageId,
    start: PageId,
    j: int,
)
    requires
        m2 == m.insert(x, m2[x]),
        node_of(m2[x]) == (NodeModel { high_key: node_of(m2[x]).high_key, ..node_of(m[x]) }),
    ensures
        chain_page(m2, start, j) == chain_page(m, start, j),
    decreases j,
{
    reveal(chain_page);
    if j > 0 {
        lemma_same_chain(m, m2, x, start, j - 1);
    }
}

/// Behind the end of the chain there is nothing.
pub proof fn lemma_chain_over(m: Map<PageId, Seq<u8>>, start: PageId, i: int, j: int)
    requires
        0 <= i <= j,
        chain_page(m, start, i) is None,
    ensures
        chain_page(m, start, j) is None,
    decreases j,
{
    if i < j {
        lemma_chain_over(m, start, i, j - 1);
        reveal_with_fuel(chain_page, 2);
    }
}

/// Page `i` of the chain is a leaf and does not follow itself.
proof fn lemma_chain_leaf(
    t: Tree,
    m: Map<PageId, Seq<u8>>,
    own: Set<PageId>,
    hi: int,
    depth: nat,
    i: int,
)
    requires
        ok(t, m, own, 0, hi, 0, depth),
        distinct(t),
        0 <= i,
        chain_page(m, first_leaf(t), i) is Some,
    ensures
        node_of(m[chain_page(m, first_leaf(t), i)->0]).page_type == PAGE_TYPE_LEAF,
        chain_page(m, first_leaf(t), i + 1) != chain_page(m, first_leaf(t), i),
{
    let start = first_leaf(t);
    assert(chain_page(m, start, 0) == Some(start) && last_key(m, start, 0) is None) by {
        reveal(chain_page);
        reveal(last_key);
    }
    let c = lemma_chain(t, m, own, 0, hi, 0, depth, start, 0);
    if c <= i {
        lemma_chain_over(m, start, c, i);
    }
    if i + 1 < c {
        assert(chain_page(m, start, i) != chain_page(m, start, i + 1));
    }
}

/// The leaf that got its high key is the next one that is fresh.
proof fn lemma_fresh_step(
    m: Map<PageId, Seq<u8>>,
    m2: Map<PageId, Seq<u8>>,
    x: PageId,
    start: PageId,
    i: int,
)
    requires
        0 <= i,
        fresh_until(m, start, i),
        chain_page(m, start, i) == Some(x),
        m2 == m || (m2 == m.insert(x, m2[x]) && node_of(m2[x]) == (NodeModel {
            high_key: node_of(m2[x]).high_key,
            ..node_of(m[x])
        })),
        node_of(m2[x]).high_key == key_after(m, x),
    ensures
        fresh_until(m2, start, i + 1),
        chain_page(m2, start, i) == Some(x),
        chain_page(m2, start, i + 1) == node_of(m[x]).next_leaf,
{
    if m2 != m {
        assert forall|j: int| #[trigger] chain_page(m2, start, j) == chain_page(m, start, j) by {
            lemma_same_chain(m, m2, x, start, j);
        }
        assert forall|y: PageId| #[trigger] key_after(m2, y) == key_after(m, y) by {}
    }
    assert forall|j: int| 0 <= j < i + 1 implies (#[trigger] chain_page(m2, start, j) matches Some(
        y,
    ) ==> node_of(m2[y]).high_key == key_after(m2, y)) by {
        assert(chain_page(m2, start, j) == chain_page(m, start, j));
        assert(key_after(m2, x) == key_after(m, x));
        if chain_page(m2, start, j) is Some {
            let y = chain_page(m2, start, j)->0;
            assert(key_after(m2, y) == key_after(m, y));
        }
    }
    assert(chain_page(m2, start, i + 1) == node_of(m[x]).next_leaf) by {
        reveal_with_fuel(chain_page, 2);
    }
}

/// Walks the leaves from the first on and sets the high key of each to the
/// first key of the next.
#[verifier::spinoff_prover]
pub fn refresh_leaf_high_keys<P: AsyncPageProvider>(
    p: &mut P,
    Ghost(t): Ghost<Tree>,
    Ghost(own): Ghost<Set<PageId>>,
    Ghost(hi): Ghost<int>,
    Ghost(depth): Ghost<nat>,
)
    requires
        ok(t, old(p).pages(), own, 0, hi, 0, depth),
        distinct(t),
        t.id() == old(p).root(),
        sized(old(p).pages()),
    ensures
        ok(t, final(p).pages(), own, 0, hi, 0, depth),
        final(p).root() == old(p).root(),
        final(p).naming() == old(p).naming(),
        forall|base: Map<PageId, Seq<u8>>| #[trigger]
            old(p).covers(base) ==> final(p).covers(base),
        final(p).next_id() == old(p).next_id(),
        sized(final(p).pages()),
        pages_kept(old(p).pages(), final(p).pages(), t),
        depth < MAX_SCAN_LEAF_HOPS ==> fresh_until(
            final(p).pages(),
            first_leaf(t),
            MAX_SCAN_LEAF_HOPS as int,
        ),
{
    let mut current: PageId = p.root_page_id();
    let ghost start = first_leaf(t);
    let ghost mut below = t;
    let ghost mut upper = hi;
    let ghost mut after: PageId = 0;
    let ghost mut left = depth;
    proof {
        lemma_has_top(t);
    }
    let mut hops: usize = 0;
    while hops < MAX_SCAN_LEAF_HOPS
        invariant
            ok(t, p.pages(), own, 0, hi, 0, depth),
            has_id(t, current),
            *p == *old(p),
            hops <= MAX_SCAN_LEAF_HOPS,
            start == first_leaf(t),
            ok(below, p.pages(), own, 0, upper, after, left),
            below.id() == current,
            first_leaf(below) == start,
            left + hops == depth,
        ensures
            depth < MAX_SCAN_LEAF_HOPS ==> current == start,
        decreases MAX_SCAN_LEAF_HOPS - hops,
    {
        proof {
            lemma_top_page(below, p.pages(), own, 0, upper, after, left);
        }
        proof {
            lemma_ids_owned(t, p.pages(), own, 0, hi, 0, depth, current);
        }
        let page = match p.read_page(current) {
            Some(page) => page,
            None => {
                return ;
            },
        };
        let header = page_header(page_bytes(&page));
        if header.page_type == PAGE_TYPE_LEAF {
            proof {
                reveal(first_leaf);
            }
            break;
        }
        proof {
            lemma_left_child(t, p.pages(), own, 0, hi, 0, depth, current);
            let kids = below->Node_kids;
            let e = below.entries();
            assert(first_leaf(below) == first_leaf(kids[0])) by {
                reveal(first_leaf);
            }
            super::insert::lemma_kid(e, kids, p.pages(), own, 0, upper, after, left, 0);
            let upper2 = bound(e, 0, upper, 1);
            after = next_of(kids, after, 0);
            upper = upper2;
            left = (left - 1) as nat;
            below = kids[0];
        }
        current = header.left_child;
        hops += 1;
    }
    let ghost m0 = p.pages();
    let mut i: usize = 0;
    proof {
        assert(chain_page(m0, start, 0) == Some(start)) by {
            reveal(chain_page);
        }
    }
    while i < MAX_SCAN_LEAF_HOPS
        invariant
            start == first_leaf(t),
            depth < MAX_SCAN_LEAF_HOPS ==> fresh_until(p.pages(), start, i as int) && chain_page(
                p.pages(),
                start,
                i as int,
            ) == Some(current),
            ok(t, p.pages(), own, 0, hi, 0, depth),
            distinct(t),
            has_id(t, current),
            sized(p.pages()),
            p.root() == old(p).root(),
            p.naming() == old(p).naming(),
            forall|base: Map<PageId, Seq<u8>>| #[trigger]
                old(p).covers(base) ==> p.covers(base),
            p.next_id() == old(p).next_id(),
            i <= MAX_SCAN_LEAF_HOPS,
            m0 == old(p).pages(),
            pages_kept(m0, p.pages(), t),
        decreases MAX_SCAN_LEAF_HOPS - i,
    {
        let ghost m1 = p.pages();
        proof {
            lemma_ids_owned(t, m1, own, 0, hi, 0, depth, current);
        }
        let page = match p.read_page(current) {
            Some(page) => page,
            None => {
                return ;
            },
        };
        let header = page_header(page_bytes(&page));
        proof {
            if depth < MAX_SCAN_LEAF_HOPS {
                lemma_chain_leaf(t, m1, own, hi, depth, i as int);
            }
        }
        if header.page_type != PAGE_TYPE_LEAF {
            return ;
        }
        let new_high = next_first_key(
            p,
            header.next_leaf,
            Ghost(t),
            Ghost(own),
            Ghost(hi),
            Ghost(depth),
            Ghost(current),
        );
        let same: bool = match (&header.high_key, &new_high) {
            (Some(a), Some(b)) => crate::layout::bytes_eq(a, b),
            (None, None) => true,
            _ => false,
        };
        if !same {
            write_high_key(p, current, &page, new_high);
            proof {
                lemma_set_high(t, m1, p.pages(), own, 0, hi, 0, depth, current);
                let m2 = p.pages();
                assert forall|x: PageId| !has_id(t, x) implies (#[trigger] m2.contains_key(x)
                    == m0.contains_key(x)) && m2[x] == m0[x] by {
                    assert(m1.contains_key(x) == m0.contains_key(x));
                }
            }
        }
        assert(pages_kept(m0, p.pages(), t));
        proof {
            let m2 = p.pages();
            if depth < MAX_SCAN_LEAF_HOPS {
                lemma_fresh_step(m1, m2, current, start, i as int);
                lemma_chain_leaf(t, m2, own, hi, depth, i as int);
                if header.next_leaf is None {
                    assert forall|j: int| i < j implies #[trigger] chain_page(
                        m2,
                        start,
                        j,
                    ) is None by {
                        lemma_chain_over(m2, start, i + 1, j);
                    }
                }
            }
        }
        match header.next_leaf {
            Some(next_id) => {
                if next_id == current {
                    return ;
                }
                current = next_id;
            },
            None => {
                return ;
            },
        }
        i += 1;
    }
}

/// The lower limit of the keys of page `x`.
pub open spec fn lo_of(t: Tree, x: PageId, lo: int, hi: int) -> int
    decreases t,
{
    match t {
        Tree::Leaf { .. } => lo,
        Tree::Node { id, entries, kids } => {
            let i = choose|i: int| 0 <= i < kids.len() && #[trigger] has_id(kids[i], x);
            if x == id || !(0 <= i < kids.len()) {
                lo
            } else {
                lo_of(kids[i], x, bound(entries, lo, hi, i), bound(entries, lo, hi, i + 1))
            }
        },
    }
}

/// Page `x` is in one child only.
proof fn lemma_holder_is(id: PageId, e: Entries, kids: Seq<Tree>, x: PageId, j: int)
    requires
        distinct(Tree::Node { id, entries: e, kids }),
        0 <= j < kids.len(),
        has_id(kids[j], x),
    ensures
        (choose|i: int| 0 <= i < kids.len() && #[trigger] has_id(kids[i], x)) == j,
        x != id,
        has_id(Tree::Node { id, entries: e, kids }, x),
{
    lemma_open_node(id, e, kids);
    let i = choose|i: int| 0 <= i < kids.len() && #[trigger] has_id(kids[i], x);
    assert(any_has_id(kids, x));
    if i < j {
        assert(!has_id(kids[j], x));
    } else if j < i {
        assert(has_id(kids[j], x));
        assert(!has_id(kids[i], x));
    }
}

proof fn lemma_first_lo(
    t: Tree,
    m: Map<PageId, Seq<u8>>,
    own: Set<PageId>,
    lo: int,
    hi: int,
    next: PageId,
    depth: nat,
)
    requires
        ok(t, m, own, lo, hi, next, depth),
        distinct(t),
    ensures
        lo_of(t, first_leaf(t), lo, hi) == lo,
    decreases t,
{
    lemma_top_page(t, m, own, lo, hi, next, depth);
    match t {
        Tree::Leaf { .. } => {},
        Tree::Node { id, entries, kids } => {
            lemma_open_node(id, entries, kids);
            super::insert::lemma_kid(entries, kids, m, own, lo, hi, next, depth, 0);
            assert(distinct(kids[0]));
            lemma_has_first(kids[0]);
            lemma_holder_is(id, entries, kids, first_leaf(kids[0]), 0);
            lemma_first_lo(
                kids[0],
                m,
                own,
                bound(entries, lo, hi, 0),
                bound(entries, lo, hi, 1),
                next_of(kids, next, 0),
                (depth - 1) as nat,
            );
        },
    }
}

/// What a leaf holds, between its limits, and where its successor begins.
pub proof fn lemma_limits(
    t: Tree,
    m: Map<PageId, Seq<u8>>,
    own: Set<PageId>,
    lo: int,
    hi: int,
    next: PageId,
    depth: nat,
    x: PageId,
)
    requires
        ok(t, m, own, lo, hi, next, depth),
        distinct(t),
        has_id(t, x),
        node_of(m[x]).page_type == PAGE_TYPE_LEAF,
    ensures
        lo <= lo_of(t, x, lo, hi) < hi_of(t, x, lo, hi) <= hi,
        keys_ok(node_of(m[x]).entries, lo_of(t, x, lo, hi), hi_of(t, x, lo, hi)),
        forall|k: int|
            lo_of(t, x, lo, hi) <= k < hi_of(t, x, lo, hi) ==> #[trigger] lookup(t, k) == leaf_get(
                node_of(m[x]).entries,
                k,
            ),
        ({
            let l = next_num(m, x);
            let h = hi_of(t, x, lo, hi);
            ||| l == next && h == hi
            ||| has_id(t, l) && leaf_from(m, l, h) && lo_of(t, l, lo, hi) == h
        }),
    decreases t,
{
    lemma_top_page(t, m, own, lo, hi, next, depth);
    match t {
        Tree::Leaf { id, entries } => {
            super::split::lemma_leaf_tree(id, entries);
            reveal(ok);
        },
        Tree::Node { id, entries, kids } => {
            let i = lemma_holder(id, entries, kids, x);
            lemma_open_node(id, entries, kids);
            let c = kids[i];
            let lo1 = bound(entries, lo, hi, i);
            let hi1 = bound(entries, lo, hi, i + 1);
            let next1 = next_of(kids, next, i);
            let d1 = (depth - 1) as nat;
            super::insert::lemma_kid(entries, kids, m, own, lo, hi, next, depth, i);
            super::tree_model::lemma_bounds(entries, kids, lo, hi, i);
            assert(distinct(kids[i]));
            lemma_limits(c, m, own, lo1, hi1, next1, d1, x);
            super::split::lemma_lookup_node(id, entries, kids, lo, hi);
            assert forall|k: int|
                lo_of(t, x, lo, hi) <= k < hi_of(t, x, lo, hi) implies #[trigger] lookup(t, k)
                == leaf_get(node_of(m[x]).entries, k) by {
                super::tree_model::lemma_route_from_bounds(entries, kids, lo, hi, k, i);
                assert(lookup(c, k) == leaf_get(node_of(m[x]).entries, k));
            }
            let l = next_num(m, x);
            lemma_next_of(kids, next, i);
            if has_id(c, l) {
                lemma_holder_is(id, entries, kids, l, i);
            }
            if i + 1 < kids.len() {
                super::insert::lemma_kid(entries, kids, m, own, lo, hi, next, depth, i + 1);
                let lo2 = hi1;
                let hi2 = bound(entries, lo, hi, i + 2);
                let next2 = next_of(kids, next, i + 1);
                assert(distinct(kids[i + 1]));
                lemma_first_leaf(kids[i + 1], m, own, lo2, hi2, next2, d1);
                lemma_first_lo(kids[i + 1], m, own, lo2, hi2, next2, d1);
                let f = first_leaf(kids[i + 1]);
                lemma_has_first(kids[i + 1]);
                lemma_holder_is(id, entries, kids, f, i + 1);
            }
        },
    }
}

/// The leaf for `k` has the limits that the way down gives it.
pub proof fn lemma_leaf_for_limits(
    t: Tree,
    m: Map<PageId, Seq<u8>>,
    own: Set<PageId>,
    lo: int,
    hi: int,
    next: PageId,
    depth: nat,
    k: int,
)
    requires
        ok(t, m, own, lo, hi, next, depth),
        distinct(t),
        k < hi,
    ensures
        ({
            let p = leaf_for(t, k, lo, hi, next);
            &&& has_id(t, p.id)
            &&& lo_of(t, p.id, lo, hi) == p.lo
            &&& hi_of(t, p.id, lo, hi) == p.hi
        }),
    decreases t,
{
    reveal(leaf_for);
    lemma_top_page(t, m, own, lo, hi, next, depth);
    lemma_has_top(t);
    match t {
        Tree::Leaf { .. } => {},
        Tree::Node { id, entries, kids } => {
            let ks = super::node_page::key_nums(entries);
            super::tree_model::lemma_route(ks, k);
            let r = super::tree_model::route(ks, k);
            if r < entries.len() {
                assert(k < ks[r]);
            }
            lemma_open_node(id, entries, kids);
            super::insert::lemma_kid(entries, kids, m, own, lo, hi, next, depth, r);
            assert(distinct(kids[r]));
            lemma_leaf_for_limits(
                kids[r],
                m,
                own,
                bound(entries, lo, hi, r),
                bound(entries, lo, hi, r + 1),
                next_of(kids, next, r),
                (depth - 1) as nat,
                k,
            );
            let p = leaf_for(t, k, lo, hi, next);
            lemma_holder_is(id, entries, kids, p.id, r);
        },
    }
}

} // verus!
