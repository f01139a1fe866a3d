//! Whether pages that come from elsewhere hold a tree that the operations can work on.
use vstd::prelude::*;

use super::chain::sized;
use super::node_page::{ascending, canonical, child_id_at_pos, child_of, collect_entries, count_of,
    entries_view, entry_size_of, entry_value_size, key_nums, lemma_canonical_bounds, node_of,
    page_header, Entry, HEADER_SIZE, OFFSET_ENTRY_SIZE, PAGE_TYPE_INTERNAL,
    PAGE_TYPE_LEAF};
use super::provider::AsyncPageProvider;
use super::split::{lemma_leaf_tree, lemma_make_node, lemma_open_node};
use super::tree::{ids_below, lemma_the_tree, tree_at, PageBPlusTree};
use super::tree_model::{any_has_id, bound, distinct, first_leaf, has_id, keys_ok, kids_distinct, kids_ok,
    leaf_page_ok, lemma_has_top, lemma_next_of, link_at, next_of, node_page_ok, ok, seps_ok,
    Entries, Tree};
use crate::btree_meta::{btree_meta_bytes, BtreeMeta};
use crate::common::{page_bytes, PageId, KEY_SIZE, PAGE_SIZE};
use crate::key_order::{be_num, bytes_lt, is_key, key_top, lemma_key_range, lemma_lex_is_num_order};
use crate::layout::{bytes_eq, copy_bytes, get_u16, u16_at, zeroed, zeros};
use std::collections::BTreeSet;

verus! {

broadcast use vstd::std_specs::btree::group_btree_axioms;

/// Levels below the root that are looked at; a well-shaped tree has fewer.
pub const MAX_LEVELS: usize = 64;

/// The limit that `hi` stands for, the end of all keys for none.
pub open spec fn limit_of(hi: Option<Vec<u8>>) -> int {
    match hi {
        Some(k) => be_num(k@),
        None => key_top(),
    }
}

/// Whether the entries of a page lie one after the other, inside the page.
fn is_canonical(page: &[u8]) -> (r: bool)
    requires
        page@.len() == PAGE_SIZE,
    ensures
        r == canonical(page@),
{
    let count: usize = get_u16(page, 2) as usize;
    let size: usize = KEY_SIZE + entry_value_size(page[0]);
    proof {
        assert(count * (OFFSET_ENTRY_SIZE + size) <= 0xffff * 0x1000) by (nonlinear_arith)
            requires
                count <= 0xffff,
                OFFSET_ENTRY_SIZE + size <= 0x1000,
        ;
    }
    if HEADER_SIZE + count * (OFFSET_ENTRY_SIZE + size) > PAGE_SIZE {
        return false;
    }
    let mut i: usize = 0;
    while i < count
        invariant
            page@.len() == PAGE_SIZE,
            count == count_of(page@),
            size == entry_size_of(page@[0]),
            HEADER_SIZE + count * (OFFSET_ENTRY_SIZE + size) <= PAGE_SIZE,
            i <= count,
            forall|j: int|
                0 <= j < i ==> #[trigger] u16_at(page@, HEADER_SIZE + j * OFFSET_ENTRY_SIZE) == j
                    * size,
        decreases count - i,
    {
        proof {
            assert(count * (OFFSET_ENTRY_SIZE + size) == count * OFFSET_ENTRY_SIZE + count * size
                && i * size <= count * size && 0 <= i * size && 0 <= count * size)
                by (nonlinear_arith)
                requires
                    0 <= i < count,
            ;
        }
        if get_u16(page, HEADER_SIZE + i * OFFSET_ENTRY_SIZE) as usize != i * size {
            assert(u16_at(page@, HEADER_SIZE + i * OFFSET_ENTRY_SIZE) != i * size);
            return false;
        }
        i += 1;
    }
    true
}

/// Whether the keys ascend and keep the limits; with `strict`, the lower one is excluded.
fn keys_between(entries: &Vec<Entry>, lo: &Vec<u8>, hi: &Option<Vec<u8>>, strict: bool) -> (r: bool)
    requires
        is_key(lo@),
        hi matches Some(k) ==> is_key(k@),
        forall|i: int| 0 <= i < entries@.len() ==> is_key((#[trigger] entries@[i]).0@),
    ensures
        ({
            let e = entries_view(entries@);
            r == (ascending(key_nums(e)) && forall|i: int|
                0 <= i < e.len() ==> (if strict {
                    be_num(lo@) < be_num((#[trigger] e[i]).0)
                } else {
                    be_num(lo@) <= be_num(e[i].0)
                }) && be_num(e[i].0) < limit_of(*hi))
        }),
{
    let ghost e = entries_view(entries@);
    let ghost ks = key_nums(e);
    let n: usize = entries.len();
    let mut i: usize = 0;
    while i < n
        invariant
            n == entries@.len(),
            i <= n,
            e == entries_view(entries@),
            ks == key_nums(e),
            is_key(lo@),
            hi matches Some(k) ==> is_key(k@),
            forall|j: int| 0 <= j < entries@.len() ==> is_key((#[trigger] entries@[j]).0@),
            forall|a: int, b: int| 0 <= a < b < i ==> #[trigger] ks[a] < #[trigger] ks[b],
            forall|j: int|
                0 <= j < i ==> (if strict {
                    be_num(lo@) < be_num((#[trigger] e[j]).0)
                } else {
                    be_num(lo@) <= be_num(e[j].0)
                }) && be_num(e[j].0) < limit_of(*hi),
        decreases n - i,
    {
        let key = entries[i].0.as_slice();
        proof {
            assert(is_key(entries@[i as int].0@));
            assert(e[i as int].0 == key@);
            assert(ks[i as int] == be_num(key@));
            lemma_key_range(key@);
            lemma_lex_is_num_order(lo@, key@);
            lemma_lex_is_num_order(key@, lo@);
        }
        let low: bool = if strict {
            bytes_lt(lo.as_slice(), key)
        } else {
            !bytes_lt(key, lo.as_slice())
        };
        if !low {
            return false;
        }
        match hi {
            Some(h) => {
                proof {
                    lemma_lex_is_num_order(key@, h@);
                }
                if !bytes_lt(key, h.as_slice()) {
                    return false;
                }
            },
            None => {},
        }
        if i > 0 {
            let before = entries[i - 1].0.as_slice();
            proof {
                assert(is_key(entries@[i - 1].0@));
                assert(ks[i - 1] == be_num(before@));
                lemma_lex_is_num_order(before@, key@);
            }
            if !bytes_lt(before, key) {
                assert(!(ks[i - 1] < ks[i as int]));
                return false;
            }
        }
        i += 1;
    }
    assert(ascending(ks));
    true
}

/// A subtree that was checked: where its leaves begin, and the tree.
struct Checked {
    first: PageId,
    tree: Ghost<Tree>,
}

/// The pages from `id` on form the subtree `t`.
spec fn found<P: AsyncPageProvider>(
    p: &P,
    t: Tree,
    id: PageId,
    lo: int,
    hi: int,
    next: PageId,
    depth: nat,
) -> bool {
    &&& ok(t, p.pages(), ids_below(p.next_id()), lo, hi, next, depth)
    &&& distinct(t)
    &&& t.id() == id
}

/// No page of the subtree was seen.
spec fn unseen(t: Tree, seen: Set<u64>) -> bool {
    forall|x: PageId| #[trigger] has_id(t, x) ==> !seen.contains(x)
}

/// Checks a leaf.
fn check_leaf<P: AsyncPageProvider>(
    p: &P,
    next_page_id: PageId,
    id: PageId,
    lo: &Vec<u8>,
    hi: &Option<Vec<u8>>,
    next: PageId,
) -> (r: Option<Checked>)
    requires
        sized(p.pages()),
        next_page_id == p.next_id(),
        is_key(lo@),
        hi matches Some(k) ==> is_key(k@),
        be_num(lo@) < limit_of(*hi),
    ensures
        r matches Some(c) ==> {
            &&& found(p, c.tree@, id, be_num(lo@), limit_of(*hi), next, 0)
            &&& c.first == first_leaf(c.tree@)
            &&& c.tree@ is Leaf
        },
        forall|t: Tree|
            #[trigger] found(p, t, id, be_num(lo@), limit_of(*hi), next, 0) ==> (r matches Some(c)
                && c.tree@ == t),
{
    let ghost m = p.pages();
    proof {
        reveal(ok);
    }
    if id == 0 || id >= next_page_id {
        return None;
    }
    let page = match p.read_page(id) {
        Some(page) => page,
        None => {
            return None;
        },
    };
    let bytes = page_bytes(&page);
    let header = page_header(bytes);
    if header.page_type != PAGE_TYPE_LEAF || !is_canonical(bytes) {
        return None;
    }
    let entries = collect_entries(bytes);
    let ghost e = entries_view(entries@);
    proof {
        assert forall|i: int| 0 <= i < entries@.len() implies is_key(
            (#[trigger] entries@[i]).0@,
        ) by {
            lemma_canonical_bounds(bytes@, i);
            assert(e[i] == node_of(bytes@).entries[i]);
        }
        assert forall|i: int| 0 <= i < e.len() implies is_key((#[trigger] e[i]).0) by {
            assert(is_key(entries@[i].0@));
        }
    }
    if !keys_between(&entries, lo, hi, false) {
        return None;
    }
    let linked: bool = match header.next_leaf {
        Some(x) => x == next,
        None => next == 0,
    };
    if !linked {
        return None;
    }
    match header.high_key {
        Some(h) => match hi {
            Some(k) => {
                let hs = h.as_slice();
                proof {
                    lemma_lex_is_num_order(h@, k@);
                }
                if bytes_lt(hs, k.as_slice()) {
                    return None;
                }
            },
            None => {
                proof {
                    lemma_key_range(h@);
                }
                return None;
            },
        },
        None => {},
    }
    match header.prev_leaf {
        Some(x) => {
            if x >= next_page_id {
                return None;
            }
        },
        None => {},
    }
    let ghost t = Tree::Leaf { id, entries: e };
    proof {
        lemma_leaf_tree(id, e);
        assert(keys_ok(e, be_num(lo@), limit_of(*hi)));
        assert(leaf_page_ok(m, ids_below(p.next_id()), id, e, limit_of(*hi), next));
        assert(found(p, t, id, be_num(lo@), limit_of(*hi), next, 0));
    }
    Some(Checked { first: id, tree: Ghost(t) })
}

/// The last subtrees of a page: they stand for the children from place `k` on.
spec fn tail_ok(
    kids: Seq<Tree>,
    k: int,
    e: Entries,
    m: Map<PageId, Seq<u8>>,
    own: Set<PageId>,
    lo: int,
    hi: int,
    next: PageId,
    depth: nat,
) -> bool {
    &&& kids.len() == e.len() + 1 - k
    &&& forall|j: int|
        #![trigger kids[j]]
        0 <= j < kids.len() ==> ok(
            kids[j],
            m,
            own,
            bound(e, lo, hi, k + j),
            bound(e, lo, hi, k + j + 1),
            next_of(kids, next, j),
            depth,
        ) && distinct(kids[j])
    &&& forall|i: int, j: int, x: PageId|
        0 <= i < j < kids.len() && #[trigger] has_id(kids[i], x) ==> !(#[trigger] has_id(kids[j], x))
}

/// One more subtree, in front of the others.
proof fn lemma_tail_more(
    t: Tree,
    kids: Seq<Tree>,
    k: int,
    e: Entries,
    m: Map<PageId, Seq<u8>>,
    own: Set<PageId>,
    lo: int,
    hi: int,
    next: PageId,
    depth: nat,
)
    requires
        0 < k <= e.len() + 1,
        tail_ok(kids, k, e, m, own, lo, hi, next, depth),
        ok(
            t,
            m,
            own,
            bound(e, lo, hi, k - 1),
            bound(e, lo, hi, k),
            if kids.len() > 0 {
                first_leaf(kids[0])
            } else {
                next
            },
            depth,
        ),
        distinct(t),
        forall|x: PageId| #[trigger] has_id(t, x) ==> !any_has_id(kids, x),
    ensures
        tail_ok(seq![t] + kids, k - 1, e, m, own, lo, hi, next, depth),
        forall|x: PageId| #[trigger]
            any_has_id(seq![t] + kids, x) <==> has_id(t, x) || any_has_id(kids, x),
{
    let all = seq![t] + kids;
    assert forall|j: int|
        #![trigger all[j]]
        0 <= j < all.len() implies ok(
        all[j],
        m,
        own,
        bound(e, lo, hi, k - 1 + j),
        bound(e, lo, hi, k - 1 + j + 1),
        next_of(all, next, j),
        depth,
    ) && distinct(all[j]) by {
        lemma_next_of(all, next, j);
        if j > 0 {
            assert(all[j] == kids[j - 1]);
            lemma_next_of(kids, next, j - 1);
            if j + 1 < all.len() {
                assert(all[j + 1] == kids[j]);
            }
        } else if all.len() > 1 {
            assert(all[1] == kids[0]);
        }
    }
    assert forall|i: int, j: int, x: PageId|
        0 <= i < j < all.len() && #[trigger] has_id(all[i], x) implies !(#[trigger] has_id(
        all[j],
        x,
    )) by {
        assert(all[j] == kids[j - 1]);
        if i > 0 {
            assert(all[i] == kids[i - 1]);
        } else if has_id(all[j], x) {
            assert(has_id(kids[j - 1], x));
            assert(any_has_id(kids, x));
        }
    }
    assert forall|x: PageId| #[trigger] any_has_id(all, x) <==> has_id(t, x) || any_has_id(
        kids,
        x,
    ) by {
        if has_id(t, x) {
            assert(has_id(all[0], x));
        }
        if any_has_id(kids, x) {
            let i = choose|i: int| 0 <= i < kids.len() && #[trigger] has_id(kids[i], x);
            assert(has_id(all[i + 1], x));
        }
        if any_has_id(all, x) {
            let i = choose|i: int| 0 <= i < all.len() && #[trigger] has_id(all[i], x);
            if i > 0 {
                assert(has_id(kids[i - 1], x));
            }
        }
    }
}

/// Checks a subtree whose leaves are `depth` levels down, and takes note of its pages.
#[verifier::spinoff_prover]
#[verifier::rlimit(60)]
fn check_below<P: AsyncPageProvider>(
    p: &P,
    next_page_id: PageId,
    id: PageId,
    lo: &Vec<u8>,
    hi: &Option<Vec<u8>>,
    next: PageId,
    depth: usize,
    seen: &mut BTreeSet<u64>,
) -> (r: Option<Checked>)
    requires
        sized(p.pages()),
        next_page_id == p.next_id(),
        is_key(lo@),
        hi matches Some(k) ==> is_key(k@),
        be_num(lo@) < limit_of(*hi),
    ensures
        r matches Some(c) ==> {
            &&& found(p, c.tree@, id, be_num(lo@), limit_of(*hi), next, depth as nat)
            &&& c.first == first_leaf(c.tree@)
            &&& unseen(c.tree@, old(seen)@)
            &&& forall|x: PageId| #[trigger]
                final(seen)@.contains(x) <==> old(seen)@.contains(x) || has_id(c.tree@, x)
        },
        forall|t: Tree|
            #[trigger] found(p, t, id, be_num(lo@), limit_of(*hi), next, depth as nat) && unseen(
                t,
                old(seen)@,
            ) ==> (r matches Some(c) && c.tree@ == t),
    decreases depth,
{
    let ghost m = p.pages();
    let ghost own = ids_below(p.next_id());
    let ghost l = be_num(lo@);
    let ghost h = limit_of(*hi);
    let ghost seen0 = seen@;
    if seen.contains(&id) {
        proof {
            assert forall|t: Tree| #[trigger] found(p, t, id, l, h, next, depth as nat) && unseen(
                t,
                seen0,
            ) implies false by {
                lemma_has_top(t);
            }
        }
        return None;
    }
    if depth == 0 {
        let r = check_leaf(p, next_page_id, id, lo, hi, next);
        if r.is_some() {
            seen.insert(id);
            proof {
                let t = r->Some_0.tree@;
                lemma_leaf_tree(id, t->Leaf_entries);
                assert(t == Tree::Leaf { id, entries: t->Leaf_entries });
            }
        }
        return r;
    }
    proof {
        assert forall|t: Tree| #[trigger] found(p, t, id, l, h, next, depth as nat) implies t is Node
            && node_page_ok(m, own, id, t.entries(), t->Node_kids[0].id()) && kids_ok(
            t.entries(),
            t->Node_kids,
            m,
            own,
            l,
            h,
            next,
            depth as nat,
        ) by {
            reveal(ok);
        }
    }
    if id == 0 || id >= next_page_id {
        return None;
    }
    let page = match p.read_page(id) {
        Some(page) => page,
        None => {
            return None;
        },
    };
    let bytes = page_bytes(&page);
    let header = page_header(bytes);
    if header.page_type != PAGE_TYPE_INTERNAL || !is_canonical(bytes) {
        return None;
    }
    let entries = collect_entries(bytes);
    let ghost e = entries_view(entries@);
    proof {
        assert forall|i: int| 0 <= i < entries@.len() implies is_key(
            (#[trigger] entries@[i]).0@,
        ) by {
            lemma_canonical_bounds(bytes@, i);
            assert(e[i] == node_of(bytes@).entries[i]);
        }
        assert forall|i: int| 0 <= i < e.len() implies is_key((#[trigger] e[i]).0) by {
            assert(is_key(entries@[i].0@));
        }
    }
    if !keys_between(&entries, lo, hi, true) {
        return None;
    }
    seen.insert(id);
    let ghost seen1 = seen@;
    let n: usize = entries.len();
    let mut kids: Ghost<Seq<Tree>> = Ghost(Seq::empty());
    let mut after: PageId = next;
    let mut k: usize = n + 1;
    while k > 0
        invariant
            k <= n + 1,
            n == entries@.len(),
            e == entries_view(entries@),
            depth > 0,
            m == p.pages(),
            own == ids_below(p.next_id()),
            sized(m),
            next_page_id == p.next_id(),
            is_key(lo@),
            hi matches Some(x) ==> is_key(x@),
            l == be_num(lo@),
            h == limit_of(*hi),
            l < h,
            m.contains_key(id),
            bytes@ == m[id],
            canonical(bytes@),
            bytes@[0] == PAGE_TYPE_INTERNAL,
            node_of(bytes@).entries == e,
            forall|i: int| 0 <= i < entries@.len() ==> is_key((#[trigger] entries@[i]).0@),
            ascending(key_nums(e)),
            forall|i: int| 0 <= i < e.len() ==> l < be_num((#[trigger] e[i]).0) < h,
            tail_ok(kids@, k as int, e, m, own, l, h, next, (depth - 1) as nat),
            forall|j: int|
                0 <= j < kids@.len() ==> (#[trigger] kids@[j]).id() == child_of(
                    node_of(bytes@),
                    k + j,
                ),
            after == (if kids@.len() > 0 {
                first_leaf(kids@[0])
            } else {
                next
            }),
            forall|x: PageId| #[trigger]
                seen@.contains(x) <==> seen1.contains(x) || any_has_id(kids@, x),
            forall|x: PageId| #[trigger] any_has_id(kids@, x) ==> !seen1.contains(x),
            seen1 == seen0.insert(id),
            seen0 == old(seen)@,
            forall|t: Tree|
                #[trigger] found(p, t, id, l, h, next, depth as nat) ==> t is Node && t.entries()
                    == e && kids_ok(e, t->Node_kids, m, own, l, h, next, depth as nat)
                    && t->Node_kids[0].id() == node_of(bytes@).left_child,
            forall|t: Tree|
                #[trigger] found(p, t, id, l, h, next, depth as nat) && unseen(t, seen0) ==> (
                forall|j: int| 0 <= j < kids@.len() ==> kids@[j] == #[trigger] t->Node_kids[k + j]),
        decreases k,
    {
        let i: usize = k - 1;
        let low: Vec<u8> = if i == 0 {
            copy_bytes(lo.as_slice())
        } else {
            copy_bytes(entries[i - 1].0.as_slice())
        };
        let high: Option<Vec<u8>> = if i == n {
            match hi {
                Some(x) => Some(copy_bytes(x.as_slice())),
                None => None,
            }
        } else {
            Some(copy_bytes(entries[i].0.as_slice()))
        };
        let child: PageId = child_id_at_pos(bytes, i);
        let ghost seen2 = seen@;
        let ghost kids0 = kids@;
        proof {
            if i > 0 {
                assert(e[i - 1].0 == entries@[i - 1].0@);
            }
            if i < n {
                assert(e[i as int].0 == entries@[i as int].0@);
            }
            if 0 < i < n {
                assert(key_nums(e)[i - 1] < key_nums(e)[i as int]);
            }
            assert(be_num(low@) == bound(e, l, h, i as int));
            assert(limit_of(high) == bound(e, l, h, i + 1));
        }
        let c = check_below(p, next_page_id, child, &low, &high, after, depth - 1, seen);
        proof {
            assert forall|t: Tree|
                #[trigger] found(p, t, id, l, h, next, depth as nat) && unseen(
                    t,
                    seen0,
                ) implies c is Some && c->Some_0.tree@ == t->Node_kids[i as int] by {
                let wk = t->Node_kids;
                let w = wk[i as int];
                assert(t == Tree::Node { id, entries: e, kids: wk });
                lemma_open_node(id, e, wk);
                lemma_next_of(wk, next, i as int);
                if i < n {
                    assert(kids0[0] == wk[k + 0]);
                }
                if i > 0 {
                    assert(link_at(e, wk, i - 1));
                    reveal(link_at);
                }
                assert(w.id() == child);
                assert(unseen(w, seen2)) by {
                    assert forall|x: PageId| #[trigger] has_id(w, x) implies !seen2.contains(x) by {
                        assert(any_has_id(wk, x));
                        assert(has_id(t, x));
                        if any_has_id(kids0, x) {
                            let j = choose|j: int| 0 <= j < kids0.len() && #[trigger] has_id(
                                kids0[j],
                                x,
                            );
                            assert(kids0[j] == wk[k + j]);
                        }
                    }
                }
                assert(found(p, w, child, be_num(low@), limit_of(high), after, (depth - 1) as nat));
            }
        }
        let c = match c {
            Some(c) => c,
            None => {
                return None;
            },
        };
        after = c.first;
        proof {
            let t = c.tree@;
            assert forall|x: PageId| #[trigger] has_id(t, x) implies !any_has_id(kids0, x) by {
                assert(!seen2.contains(x));
            }
            lemma_tail_more(t, kids0, k as int, e, m, own, l, h, next, (depth - 1) as nat);
            kids@ = seq![t] + kids0;
            assert forall|x: PageId| #[trigger] any_has_id(kids@, x) implies !seen1.contains(x) by {
                if has_id(t, x) {
                    assert(!seen2.contains(x));
                }
            }
            assert forall|w: Tree|
                #[trigger] found(p, w, id, l, h, next, depth as nat) && unseen(w, seen0) implies (
            forall|j: int| 0 <= j < kids@.len() ==> kids@[j] == #[trigger] w->Node_kids[i + j]) by {
                assert forall|j: int| 0 <= j < kids@.len() implies kids@[j]
                    == #[trigger] w->Node_kids[i + j] by {
                    if j > 0 {
                        assert(kids@[j] == kids0[j - 1]);
                        assert(kids0[j - 1] == w->Node_kids[k + (j - 1)]);
                    }
                }
            }
            assert forall|j: int| 0 <= j < kids@.len() implies (#[trigger] kids@[j]).id()
                == child_of(node_of(bytes@), i + j) by {
                if j > 0 {
                    assert(kids@[j] == kids0[j - 1]);
                }
            }
        }
        k = i;
    }
    let ghost t = Tree::Node { id, entries: e, kids: kids@ };
    proof {
        assert(seps_ok(e, kids@, l, h)) by {
            reveal(link_at);
            assert forall|i: int| 0 <= i < e.len() implies #[trigger] link_at(e, kids@, i) by {
                assert(kids@[i + 1].id() == child_of(node_of(bytes@), 0 + (i + 1)));
            }
        }
        assert(kids@[0].id() == child_of(node_of(bytes@), 0));
        assert(kids_ok(e, kids@, m, own, l, h, next, depth as nat));
        assert(kids_distinct(kids@));
        assert(!any_has_id(kids@, id));
        lemma_make_node(id, e, kids@, m, own, l, h, next, depth as nat);
        assert(found(p, t, id, l, h, next, depth as nat));
        assert forall|w: Tree|
            #[trigger] found(p, w, id, l, h, next, depth as nat) && unseen(w, seen0) implies t
            == w by {
            assert forall|j: int| 0 <= j < kids@.len() implies kids@[j] == w->Node_kids[j] by {
                assert(kids@[j] == w->Node_kids[0 + j]);
            }
            assert(kids@ =~= w->Node_kids);
            assert(w == Tree::Node { id, entries: e, kids: w->Node_kids });
        }
    }
    Some(Checked { first: after, tree: Ghost(t) })
}

proof fn lemma_zero_key(n: nat)
    ensures
        be_num(zeros(n as int)) == 0,
    decreases n,
{
    if n > 0 {
        lemma_zero_key((n - 1) as nat);
        assert(zeros(n as int).drop_last() =~= zeros(n - 1));
    }
}

impl<P: AsyncPageProvider> PageBPlusTree<P> {
    /// Whether the operations can work on the pages: they hold a tree under the root, with
    /// at most `MAX_LEVELS` levels below it, and the page that names the root, if the
    /// provider keeps one, names it and is no page of the tree.
    #[verifier::spinoff_prover]
    pub fn forms_tree(&self, next_page_id: PageId, naming: Option<PageId>) -> (r: bool)
        requires
            sized(self.provider.pages()),
            next_page_id == self.provider.next_id(),
            naming == self.provider.naming(),
        ensures
            r ==> self.wf(),
            self.wf() && self.depth() <= MAX_LEVELS ==> r,
    {
        let ghost m = self.provider.pages();
        let ghost n = self.provider.next_id();
        let root: PageId = self.provider.root_page_id();
        match naming {
            Some(x) => {
                if x >= next_page_id {
                    return false;
                }
                let page = match self.provider.read_page(x) {
                    Some(page) => page,
                    None => {
                        return false;
                    },
                };
                let want = BtreeMeta { root_page_id: root }.encode();
                if !bytes_eq(page_bytes(&page), page_bytes(&want)) {
                    return false;
                }
            },
            None => {},
        }
        if next_page_id == 0 {
            return false;
        }
        let lo: Vec<u8> = zeroed(KEY_SIZE);
        let hi: Option<Vec<u8>> = None;
        proof {
            lemma_zero_key(KEY_SIZE as nat);
            lemma_key_range(lo@);
        }
        let mut d: usize = 0;
        while d <= MAX_LEVELS
            invariant
                d <= MAX_LEVELS + 1,
                m == self.provider.pages(),
                n == self.provider.next_id(),
                sized(m),
                0 < n,
                next_page_id == n,
                root == self.provider.root(),
                naming == self.provider.naming(),
                naming matches Some(x) ==> x < n && m.contains_key(x) && m[x] == btree_meta_bytes(
                    root as int,
                ),
                is_key(lo@),
                be_num(lo@) == 0,
                0 < key_top(),
                hi is None,
                self.wf() ==> self.depth() >= d,
            decreases MAX_LEVELS + 1 - d,
        {
            let mut seen: BTreeSet<u64> = BTreeSet::new();
            let ghost none = seen@;
            let c = check_below(&self.provider, next_page_id, root, &lo, &hi, 0, d, &mut seen);
            match c {
                Some(c) => {
                    proof {
                        assert(tree_at(m, root, n, c.tree@, d as nat));
                        lemma_the_tree(m, root, n, c.tree@, d as nat);
                    }
                    return match naming {
                        Some(x) => !seen.contains(&x),
                        None => true,
                    };
                },
                None => {
                    proof {
                        if self.wf() && self.depth() == d {
                            let t = self.tree();
                            assert(tree_at(m, root, n, t, d as nat));
                            assert(limit_of(hi) == key_top());
                            assert(found(
                                &self.provider,
                                t,
                                root,
                                be_num(lo@),
                                limit_of(hi),
                                0,
                                d as nat,
                            ));
                            assert(unseen(t, none));
                            assert(c is Some);
                        }
                    }
                },
            }
            d += 1;
        }
        false
    }
}

} // verus!
