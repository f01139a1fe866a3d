//! The tree: rows by key, over any page provider.
use vstd::prelude::*;

use super::chain::{first_of, fresh_until, key_after, refresh_leaf_high_keys, repair_leaf_boundary_after_delete, sized, stale,
    MAX_SCAN_LEAF_HOPS};
use super::insert::{beside_kept, insert_below, lemma_child_of, lemma_kid};
use super::links::{first_lowered, forest, lemma_cut_beside, lemma_cut_more, lemma_cut_nothing,
    lemma_cut_then_kept, links_cut, links_kept, new_link, old_link, same_link};
use super::node_page::{child_id_at_pos, child_insert_pos_for_key, encode_child_id, encode_entries,
    encode_leaf_value, entries_view, entry_size_of, find_in_leaf, key_nums, lemma_canonical_table,
    new_page, new_page_buf, node_of, page_header, page_is_full_for_insert, row_of, LeafRow,
    LeafValue, LeafValueRef, LEAF_VALUE_SIZE, OFFSET_ENTRY_SIZE, PAGE_TYPE_INTERNAL,
    PAGE_TYPE_LEAF};
use super::provider::{listed_from, with_page, with_root, wrote_more, AsyncPageProvider, InMemoryPageProvider};
use super::remove::remove_below;
use super::shape::{filled, firsts_kept, ids_grow, insert_shape, kid_filled, leaf_id, lemma_filled_leaf,
    lemma_filled_node, lemma_snug_leaf, lemma_snug_node, low_of,
    only_page, roomy, same_from, same_ways, snug, snug_kept, well_shaped};
use super::split::{grown, has_room, lemma_leaf_tree, lemma_lookup_node, lemma_make_node,
    lemma_open_node, lemma_top_page, lone, same_outside, split_page, tree_type, two};
use super::tree_lemmas::lookup_kids;
use super::tree_model::{any_has_id, bound, distinct, first_leaf, has_id, keys_ok, leaf_for, leaf_get,
    lemma_frame, lemma_has_top, lemma_ids_owned, lemma_next_of, lemma_route, lemma_route_bounds,
    lemma_route_unique, lookup, next_of, ok, route, LeafPos, Tree};
use super::validate::{chain_page, is_leaf, is_valid, last_key};
use super::validity::{ids_of, lemma_chain, law_insert_keeps_valid, law_removal_leaves_valid,
    law_single_leaf_is_valid};
use crate::btree_meta::{btree_meta_bytes, law_btree_meta_round_trip};
use crate::common::{page_bytes, page_from_vec, Error, PageId, Result, KEY_SIZE, VALUE_SIZE};
use crate::key_order::{be_num, is_key, key_top, lemma_key_range, lemma_lex_is_num_order,
    route_num};
use crate::layout::le8;

verus! {

/// All ids below `n`.
pub open spec fn ids_below(n: int) -> Set<PageId> {
    Set::new(|x: PageId| x < n)
}

/// The pages of `m` hold the tree `t` under page `root`.
pub open spec fn tree_at(
    m: Map<PageId, Seq<u8>>,
    root: PageId,
    n: int,
    t: Tree,
    depth: nat,
) -> bool {
    &&& ok(t, m, ids_below(n), 0, key_top(), 0, depth)
    &&& distinct(t)
    &&& t.id() == root
    &&& 0 < n
    &&& sized(m)
}

/// The pages of `m` hold some tree under page `root`.
pub open spec fn holds_tree(m: Map<PageId, Seq<u8>>, root: PageId, n: int) -> bool {
    exists|t: Tree, depth: nat| #[trigger] tree_at(m, root, n, t, depth)
}

/// The tree that the pages hold, and its depth.
pub open spec fn the_tree(m: Map<PageId, Seq<u8>>, root: PageId, n: int) -> (Tree, nat) {
    choose|t: Tree, depth: nat| #[trigger] tree_at(m, root, n, t, depth)
}

/// The rows of a tree by key.
pub open spec fn rows_of(t: Tree) -> Map<Seq<u8>, LeafRow> {
    Map::new(
        |k: Seq<u8>| is_key(k) && lookup(t, be_num(k)) is Some,
        |k: Seq<u8>| row_of(lookup(t, be_num(k))->Some_0),
    )
}

/// Pages determine the tree they hold.
pub proof fn lemma_unique(
    t1: Tree,
    t2: Tree,
    m: Map<PageId, Seq<u8>>,
    own1: Set<PageId>,
    own2: Set<PageId>,
    lo1: int,
    hi1: int,
    next1: PageId,
    d1: nat,
    lo2: int,
    hi2: int,
    next2: PageId,
    d2: nat,
)
    requires
        ok(t1, m, own1, lo1, hi1, next1, d1),
        ok(t2, m, own2, lo2, hi2, next2, d2),
        t1.id() == t2.id(),
    ensures
        t1 == t2,
        d1 == d2,
    decreases t1,
{
    lemma_top_page(t1, m, own1, lo1, hi1, next1, d1);
    lemma_top_page(t2, m, own2, lo2, hi2, next2, d2);
    let e = t1.entries();
    match (t1, t2) {
        (Tree::Node { id, entries, kids }, Tree::Node { id: idb, entries: eb, kids: kb }) => {
            assert(kids.len() == kb.len());
            assert forall|i: int| #![trigger kids[i]] 0 <= i < kids.len() implies kids[i] == kb[i]
                && d1 == d2 by {
                lemma_child_of(node_of(m[id]), e, kids, lo1, hi1, i);
                lemma_child_of(node_of(m[id]), e, kb, lo2, hi2, i);
                lemma_kid(e, kids, m, own1, lo1, hi1, next1, d1, i);
                lemma_kid(e, kb, m, own2, lo2, hi2, next2, d2, i);
                lemma_unique(
                    kids[i],
                    kb[i],
                    m,
                    own1,
                    own2,
                    bound(e, lo1, hi1, i),
                    bound(e, lo1, hi1, i + 1),
                    next_of(kids, next1, i),
                    (d1 - 1) as nat,
                    bound(e, lo2, hi2, i),
                    bound(e, lo2, hi2, i + 1),
                    next_of(kb, next2, i),
                    (d2 - 1) as nat,
                );
            }
            let c = kids[0];
            assert(kids =~= kb);
        },
        _ => {},
    }
}

/// The tree that the pages hold is the one they were shown to hold.
pub proof fn lemma_the_tree(m: Map<PageId, Seq<u8>>, root: PageId, n: int, t: Tree, depth: nat)
    requires
        tree_at(m, root, n, t, depth),
    ensures
        holds_tree(m, root, n),
        the_tree(m, root, n) == (t, depth),
{
    let (t2, d2) = the_tree(m, root, n);
    assert(tree_at(m, root, n, t2, d2));
    lemma_unique(
        t,
        t2,
        m,
        ids_below(n),
        ids_below(n),
        0,
        key_top(),
        0,
        depth,
        0,
        key_top(),
        0,
        d2,
    );
}

/// The pages on the way to the first leaf.
spec fn spine(t: Tree) -> Set<PageId>
    decreases t,
{
    match t {
        Tree::Leaf { id, .. } => set![id],
        Tree::Node { id, kids, .. } => if kids.len() > 0 {
            spine(kids[0]).insert(id)
        } else {
            set![id]
        },
    }
}

proof fn lemma_spine(
    t: Tree,
    m: Map<PageId, Seq<u8>>,
    own: Set<PageId>,
    lo: int,
    hi: int,
    next: PageId,
    depth: nat,
)
    requires
        ok(t, m, own, lo, hi, next, depth),
        distinct(t),
    ensures
        spine(t).finite(),
        spine(t).len() == depth + 1,
        forall|x: PageId| #[trigger] spine(t).contains(x) ==> has_id(t, x),
    decreases t,
{
    lemma_top_page(t, m, own, lo, hi, next, depth);
    lemma_has_top(t);
    match t {
        Tree::Leaf { .. } => {},
        Tree::Node { id, entries, kids } => {
            lemma_open_node(id, entries, kids);
            lemma_kid(entries, kids, m, own, lo, hi, next, depth, 0);
            assert(distinct(kids[0]));
            lemma_spine(
                kids[0],
                m,
                own,
                bound(entries, lo, hi, 0),
                bound(entries, lo, hi, 1),
                next_of(kids, next, 0),
                (depth - 1) as nat,
            );
            assert forall|x: PageId| #[trigger] spine(t).contains(x) implies has_id(t, x) by {
                if x != id {
                    assert(spine(kids[0]).contains(x));
                    assert(has_id(kids[0], x));
                    assert(any_has_id(kids, x));
                }
            }
            if spine(kids[0]).contains(id) {
                assert(has_id(kids[0], id));
                assert(any_has_id(kids, id));
            }
        },
    }
}

/// A tree is less deep than it has page ids.
pub proof fn lemma_depth_bound(m: Map<PageId, Seq<u8>>, root: PageId, n: int, t: Tree, depth: nat)
    requires
        tree_at(m, root, n, t, depth),
    ensures
        depth < n,
{
    let own = ids_below(n);
    lemma_spine(t, m, own, 0, key_top(), 0, depth);
    let ints = vstd::set_lib::set_int_range(0, n);
    vstd::set_lib::lemma_int_range(0, n);
    let s = spine(t);
    let img = s.map(|x: PageId| x as int);
    assert forall|x: PageId, y: PageId|
        #[trigger] s.contains(x) && #[trigger] s.contains(y) && x as int == y as int implies x
        == y by {}
    vstd::set_lib::lemma_map_size(s, img, |x: PageId| x as int);
    assert forall|i: int| #[trigger] img.contains(i) implies ints.contains(i) by {
        let x = choose|x: PageId| s.contains(x) && i == x as int;
        assert(s.contains(x));
        lemma_ids_owned(t, m, own, 0, key_top(), 0, depth, x);
    }
    assert(img.subset_of(ints));
    vstd::set_lib::lemma_len_subset(img, ints);
}

/// Page-based B+Tree that uses AsyncPageProvider for storage.
pub struct PageBPlusTree<P: AsyncPageProvider> {
    pub provider: P,
    pub len: u64,
}

/// The tree under the first page from the top that is a leaf or has more than
/// one child.
pub open spec fn without_bare_roots(t: Tree) -> Tree
    decreases t,
{
    match t {
        Tree::Leaf { .. } => t,
        Tree::Node { entries, kids, .. } => if entries.len() == 0 && kids.len() > 0 {
            without_bare_roots(kids[0])
        } else {
            t
        },
    }
}

/// Dropping roots with one child leaves no such root, and pages as full as before.
pub proof fn lemma_bare_roots(t: Tree)
    ensures
        ({
            let w = without_bare_roots(t);
            &&& without_bare_roots(w) == w
            &&& filled(t) ==> filled(w)
            &&& w is Node && w->Node_kids.len() > 0 ==> w.entries().len() > 0
        }),
    decreases t,
{
    match t {
        Tree::Leaf { .. } => {},
        Tree::Node { id, entries, kids } => {
            if entries.len() == 0 && kids.len() > 0 {
                lemma_bare_roots(kids[0]);
                lemma_filled_node(id, entries, kids);
                if filled(t) {
                    assert(kid_filled(kids[0]));
                }
            }
        },
    }
}

/// If page `z` is a leaf of the tree, it is the right one of the two children of
/// the root, and the separator is its first key.
pub open spec fn root_cut(m: Map<PageId, Seq<u8>>, t: Tree, z: PageId) -> bool {
    has_id(t, z) && is_leaf(m, z) ==> (t matches Tree::Node { entries, kids, .. } && entries.len()
        == 1 && kids.len() == 2 && kids[1].id() == z && first_of(m, z) == Some(entries[0].0)
        && z != t.id())
}

/// The page `naming`, if there is one, names the root of the tree `t` and is no page of it.
pub open spec fn named(
    t: Tree,
    m: Map<PageId, Seq<u8>>,
    naming: Option<PageId>,
    root: PageId,
    n: int,
) -> bool {
    naming matches Some(x) ==> {
        &&& !has_id(t, x)
        &&& x < n
        &&& m.contains_key(x)
        &&& m[x] == btree_meta_bytes(root as int)
    }
}

/// Old pages outside the tree are as before, but for the page that names the root.
pub open spec fn same_but_named(
    m: Map<PageId, Seq<u8>>,
    m2: Map<PageId, Seq<u8>>,
    t: Tree,
    n0: int,
    naming: Option<PageId>,
) -> bool {
    forall|x: PageId|
        !has_id(t, x) && x < n0 && naming != Some(x) ==> (#[trigger] m2.contains_key(x)
            == m.contains_key(x)) && m2[x] == m[x]
}

/// Another root is named: the tree stays.
proof fn lemma_name_root(
    t: Tree,
    m: Map<PageId, Seq<u8>>,
    naming: Option<PageId>,
    root: PageId,
    n: int,
    d: nat,
)
    requires
        tree_at(m, root, n, t, d),
        naming matches Some(x) ==> !has_id(t, x) && x < n,
    ensures
        tree_at(with_root(m, naming, root), root, n, t, d),
        named(t, with_root(m, naming, root), naming, root, n),
{
    match naming {
        Some(x) => {
            law_btree_meta_round_trip(root);
            let m2 = with_root(m, naming, root);
            assert forall|y: PageId| #[trigger] has_id(t, y) implies m2.contains_key(y) && m2[y]
                == m[y] by {
                lemma_ids_owned(t, m, ids_below(n), 0, key_top(), 0, d, y);
            }
            lemma_frame(t, m, m2, ids_below(n), ids_below(n), 0, key_top(), 0, d);
        },
        None => {},
    }
}

/// Another root is named: the chain of leaves stays.
proof fn lemma_chain_named(
    t: Tree,
    m: Map<PageId, Seq<u8>>,
    m2: Map<PageId, Seq<u8>>,
    start: PageId,
    c: int,
    j: int,
)
    requires
        0 <= j,
        forall|x: PageId| #[trigger] has_id(t, x) ==> m2[x] == m[x],
        forall|i: int|
            0 <= i < c ==> (#[trigger] chain_page(m, start, i) matches Some(x) && has_id(t, x)),
        chain_page(m, start, c) is None,
        0 <= c,
    ensures
        chain_page(m2, start, j) == chain_page(m, start, j),
        j >= c ==> chain_page(m, start, j) is None,
    decreases j,
{
    reveal(chain_page);
    if j > 0 {
        lemma_chain_named(t, m, m2, start, c, j - 1);
        if j - 1 < c {
            assert(has_id(t, chain_page(m, start, j - 1)->0));
        }
    }
}

/// Another root is named: high keys are as fresh as they were.
proof fn lemma_fresh_named(
    t: Tree,
    m: Map<PageId, Seq<u8>>,
    naming: Option<PageId>,
    root: PageId,
    root2: PageId,
    n: int,
    d: nat,
    hops: int,
)
    requires
        tree_at(m, root, n, t, d),
        naming matches Some(x) ==> !has_id(t, x),
        fresh_until(m, first_leaf(t), hops),
    ensures
        fresh_until(with_root(m, naming, root2), first_leaf(t), hops),
{
    let m2 = with_root(m, naming, root2);
    let start = first_leaf(t);
    assert(chain_page(m, start, 0) == Some(start) && last_key(m, start, 0) is None) by {
        reveal(chain_page);
        reveal(last_key);
    }
    let c = lemma_chain(t, m, ids_below(n), 0, key_top(), 0, d, start, 0);
    assert forall|i: int| 0 <= i < c implies (#[trigger] chain_page(m, start, i) matches Some(x)
        && has_id(t, x)) by {
        assert(ids_of(t).contains(chain_page(m, start, i)->0));
    }
    assert forall|j: int| 0 <= j < hops implies (#[trigger] chain_page(m2, start, j) matches Some(x)
        ==> node_of(m2[x]).high_key == key_after(m2, x)) by {
        lemma_chain_named(t, m, m2, start, c, j);
        lemma_chain_named(t, m, m2, start, c, j + 1);
        match chain_page(m, start, j) {
            Some(x) => {
                assert(j < c);
                assert(has_id(t, x));
                match node_of(m[x]).next_leaf {
                    Some(y) => {
                        assert(chain_page(m, start, j + 1) == Some(y)) by {
                            reveal_with_fuel(chain_page, 2);
                        }
                        assert(j + 1 < c);
                        assert(has_id(t, y));
                    },
                    None => {},
                }
            },
            None => {},
        }
    }
}

/// Another root is named: what was said of the cut in two stays true.
proof fn lemma_name_new_root(
    t: Tree,
    t2: Tree,
    m0: Map<PageId, Seq<u8>>,
    m2: Map<PageId, Seq<u8>>,
    naming: Option<PageId>,
    root: PageId,
    n0: int,
    n2: int,
    z: PageId,
)
    requires
        naming matches Some(x) ==> !has_id(t, x) && !has_id(t2, x) && x < n0,
        n0 <= n2,
        z == n0,
        links_cut(ids_of(t), ids_of(t2), m0, m2, z),
        root_cut(m2, t2, z),
        same_from(m0, m2, n2),
        same_outside(m0, m2, t, n0),
    ensures
        ({
            let m3 = with_root(m2, naming, root);
            &&& links_cut(ids_of(t), ids_of(t2), m0, m3, z)
            &&& root_cut(m3, t2, z)
            &&& same_from(m0, m3, n2)
            &&& same_but_named(m0, m3, t, n0, naming)
        }),
{
    let m3 = with_root(m2, naming, root);
    let ids = ids_of(t);
    let ids2 = ids_of(t2);
    reveal(links_cut);
    assert forall|x: PageId| #[trigger] ids2.contains(x) implies m3.contains_key(x)
        == m2.contains_key(x) && m3[x] == m2[x] by {}
    assert forall|x: PageId| (#[trigger] ids.contains(x)) && is_leaf(m0, x) implies is_leaf(m3, x)
        && first_of(m3, x) == first_of(m0, x) by {
        assert(ids2.contains(x));
    }
    assert forall|x: PageId| (#[trigger] ids2.contains(x)) && is_leaf(m3, x) implies new_link(
        ids2,
        m3,
        x,
        z,
    ) || old_link(ids, m0, m3, x) by {
        assert(is_leaf(m2, x));
        if new_link(ids2, m2, x, z) {
            assert(ids2.contains(z));
        } else {
            let y = choose|y: PageId| #[trigger]
                ids.contains(y) && is_leaf(m0, y) && same_link(m0, y, m2, x);
            assert(same_link(m0, y, m3, x));
        }
    }
    assert forall|x: PageId| !has_id(t, x) && x < n0 && naming != Some(x) implies (
    #[trigger] m3.contains_key(x) == m0.contains_key(x)) && m3[x] == m0[x] by {
        assert(m2.contains_key(x) == m0.contains_key(x));
    }
    assert forall|x: PageId| x >= n2 implies (#[trigger] m3.contains_key(x) == m0.contains_key(x))
        && m3[x] == m0[x] by {
        assert(m2.contains_key(x) == m0.contains_key(x));
    }
}

/// The root cut in two, under a new root.
#[verifier::spinoff_prover]
proof fn lemma_links_new_root(
    t: Tree,
    t2: Tree,
    m0: Map<PageId, Seq<u8>>,
    m1: Map<PageId, Seq<u8>>,
    m2: Map<PageId, Seq<u8>>,
    z: PageId,
)
    requires
        t2 is Node,
        t2->Node_kids.len() == 2,
        t2.entries().len() == 1,
        t2->Node_kids[1].id() == z,
        !any_has_id(t2->Node_kids, t2.id()),
        links_cut(ids_of(t), forest(t2->Node_kids), m0, m1, z),
        is_leaf(m1, z) ==> first_of(m1, z) == Some(t2.entries()[0].0),
        m2 == m1.insert(t2.id(), m2[t2.id()]),
        !is_leaf(m2, t2.id()),
    ensures
        links_cut(ids_of(t), ids_of(t2), m0, m2, z),
        root_cut(m2, t2, z),
{
    let kids = t2->Node_kids;
    let id = t2.id();
    let ids = forest(kids);
    let top = set![id];
    assert forall|x: PageId| #[trigger] ids.contains(x) implies m2[x] == m1[x] by {
        assert(any_has_id(kids, x));
    }
    lemma_has_top(kids[1]);
    assert(has_id(kids[1], z));
    assert(any_has_id(kids, z));
    lemma_cut_beside(ids_of(t), ids, Set::empty(), id, m0, m1, m2, z);
    assert(ids_of(t).union(Set::empty()) =~= ids_of(t));
    assert(ids.union(Set::empty()) =~= ids);
    assert(ids_of(t2) =~= ids.union(top)) by {
        assert forall|x: PageId| ids_of(t2).contains(x) <==> ids.union(top).contains(x) by {
            super::split::lemma_has_node(id, t2.entries(), kids, x);
            assert(t2 == Tree::Node { id, entries: t2.entries(), kids });
        }
    }
    lemma_cut_more(ids_of(t), ids, ids_of(t2), m0, m2, z);
}

/// What stays outside the tree in two steps stays.
proof fn lemma_outside_twice(
    t: Tree,
    t1: Tree,
    m0: Map<PageId, Seq<u8>>,
    m1: Map<PageId, Seq<u8>>,
    m2: Map<PageId, Seq<u8>>,
    n0: int,
    n1: int,
    naming: Option<PageId>,
)
    requires
        same_but_named(m0, m1, t, n0, naming),
        same_outside(m1, m2, t1, n1),
        n0 <= n1,
        forall|x: PageId| #[trigger] has_id(t1, x) ==> has_id(t, x) || n0 <= x,
    ensures
        same_but_named(m0, m2, t, n0, naming),
{
    assert forall|x: PageId| !has_id(t, x) && x < n0 && naming != Some(x) implies (#[trigger] m2.contains_key(x)
        == m0.contains_key(x)) && m2[x] == m0[x] by {
        assert(!has_id(t1, x));
        assert(m2.contains_key(x) == m1.contains_key(x));
        assert(m1.contains_key(x) == m0.contains_key(x));
    }
}

proof fn lemma_from_twice(
    m0: Map<PageId, Seq<u8>>,
    m1: Map<PageId, Seq<u8>>,
    m2: Map<PageId, Seq<u8>>,
    n1: int,
    n2: int,
)
    requires
        same_from(m0, m1, n1),
        same_from(m1, m2, n2),
        n1 <= n2,
    ensures
        same_from(m0, m2, n2),
{
    assert forall|x: PageId| x >= n2 implies (#[trigger] m2.contains_key(x) == m0.contains_key(x))
        && m2[x] == m0[x] by {
        assert(m1.contains_key(x) == m0.contains_key(x));
        assert(m2.contains_key(x) == m1.contains_key(x));
    }
}

proof fn lemma_ids_twice(t: Tree, t1: Tree, t2: Tree, n0: int, n1: int, n2: int)
    requires
        ids_grow(t, t1, n0, n1),
        ids_grow(t1, t2, n1, n2),
    ensures
        ids_grow(t, t2, n0, n2),
{
    assert forall|x: PageId| #[trigger] has_id(t, x) implies has_id(t2, x) by {
        assert(has_id(t1, x));
    }
    assert forall|x: PageId| n0 <= x < n2 implies #[trigger] has_id(t2, x) by {
        if x < n1 {
            assert(has_id(t1, x));
        }
    }
}

/// First keys stay when the root is cut and a key is put in below it.
proof fn lemma_snug_twice(
    t: Tree,
    t1: Tree,
    t2: Tree,
    m0: Map<PageId, Seq<u8>>,
    m1: Map<PageId, Seq<u8>>,
    m2: Map<PageId, Seq<u8>>,
    z: PageId,
    kn: int,
)
    requires
        links_cut(ids_of(t), ids_of(t1), m0, m1, z),
        snug(t1, None),
        snug_kept(t1, t2, m1, m2, kn),
        first_leaf(t1) == first_leaf(t),
    ensures
        snug(t2, None),
        firsts_kept(t, m0, m2, false),
{
    reveal(snug_kept);
    reveal(links_cut);
    assert(snug(t2, None) && firsts_kept(t1, m1, m2, false));
    assert forall|x: PageId|
        (#[trigger] has_id(t, x)) && is_leaf(m0, x) && x != first_leaf(t) implies is_leaf(m2, x)
        && first_of(m2, x) == first_of(m0, x) by {
        assert(ids_of(t).contains(x));
        assert(ids_of(t1).contains(x));
        assert(has_id(t1, x));
    }
}

/// A cut of the root, if there was one, and an insert below it.
#[verifier::spinoff_prover]
proof fn lemma_links_insert(
    t: Tree,
    t1: Tree,
    t2: Tree,
    m0: Map<PageId, Seq<u8>>,
    m1: Map<PageId, Seq<u8>>,
    m2: Map<PageId, Seq<u8>>,
    z: PageId,
    n1: int,
    depth: nat,
    key: Seq<u8>,
)
    requires
        links_cut(ids_of(t), ids_of(t1), m0, m1, z),
        root_cut(m1, t1, z),
        links_kept(ids_of(t1), ids_of(t2), m1, m2, key),
        ok(t1, m1, ids_below(n1), 0, key_top(), 0, depth),
        distinct(t1),
        is_key(key),
        t1 matches Tree::Node { entries, kids, .. } ==> beside_kept(
            m1,
            m2,
            t1.id(),
            kids[route(key_nums(entries), be_num(key))],
            n1,
        ),
    ensures
        links_kept(ids_of(t), ids_of(t2), m0, m2, key),
{
    if has_id(t1, z) && is_leaf(m1, z) {
        let e = t1.entries();
        let kids = t1->Node_kids;
        let ks = key_nums(e);
        lemma_key_range(key);
        lemma_open_node(t1.id(), e, kids);
        lemma_ids_owned(t1, m1, ids_below(n1), 0, key_top(), 0, depth, z);
        lemma_has_top(kids[1]);
        if be_num(key) < be_num(e[0].0) {
            assert(ks[0] == be_num(e[0].0));
            assert(ks.len() == 1);
            lemma_route(ks, be_num(key));
            assert(route(ks, be_num(key)) == 0);
            assert(!has_id(kids[0], z)) by {
                if has_id(kids[0], z) {
                    assert(!has_id(kids[1], z));
                }
            }
            assert(m2[z] == m1[z]);
        } else {
            reveal(links_kept);
            assert(ids_of(t1).contains(z));
            assert(first_lowered(m1, m2, z, key));
        }
    }
    lemma_cut_then_kept(ids_of(t), ids_of(t1), ids_of(t2), m0, m1, m2, z, key);
}

impl<P: AsyncPageProvider> PageBPlusTree<P> {
    /// The provider holds a tree, and the page that names its root, if there is one,
    /// names it.
    pub open spec fn wf(&self) -> bool {
        &&& holds_tree(self.provider.pages(), self.provider.root(), self.provider.next_id())
        &&& named(
            self.tree(),
            self.provider.pages(),
            self.provider.naming(),
            self.provider.root(),
            self.provider.next_id(),
        )
    }

    /// The tree in the provider.
    pub open spec fn tree(&self) -> Tree {
        the_tree(self.provider.pages(), self.provider.root(), self.provider.next_id()).0
    }

    /// How many levels the leaves are below the root.
    pub open spec fn depth(&self) -> nat {
        the_tree(self.provider.pages(), self.provider.root(), self.provider.next_id()).1
    }

    /// The rows by key.
    pub open spec fn rows(&self) -> Map<Seq<u8>, LeafRow> {
        rows_of(self.tree())
    }

    /// The counter is the number of rows, as it is of a tree that began empty.
    pub open spec fn counted(&self) -> bool {
        self.rows().dom().finite() && self.len == self.rows().dom().len()
    }

    /// Lookups do not give up for depth, even after `n` more inserts.
    pub open spec fn shallow_for(&self, n: int) -> bool {
        well_shaped(self.tree()) || self.depth() + n < MAX_SCAN_LEAF_HOPS
    }

    /// `after` is this tree with another page at the leaf that key `kn` belongs to;
    /// if the key was there already, each key still belongs to the same leaf.
    pub open spec fn wrote_one(&self, after: &Self, kn: int) -> bool {
        &&& after.provider.next_id() == self.provider.next_id()
        &&& after.provider.root() == self.provider.root()
        &&& after.depth() == self.depth()
        &&& only_page(self.provider.pages(), after.provider.pages(), leaf_id(self.tree(), kn))
        &&& after.provider.written() == with_page(
            self.provider.written(),
            leaf_id(self.tree(), kn),
        )
        &&& lookup(self.tree(), kn) is Some ==> same_ways(self.tree(), after.tree())
    }

    /// The leaf that `key` belongs to.
    pub open spec fn leaf_of(&self, key: Seq<u8>) -> LeafPos {
        leaf_for(self.tree(), route_num(key), 0, key_top(), 0)
    }

    /// What a change keeps: pages that are outside the tree and not stale, but for the
    /// page that names the root.
    pub open spec fn others_kept(&self, after: &Self) -> bool {
        forall|x: PageId|
            !has_id(self.tree(), x) && !stale(self.provider.pages(), self.tree(), x) && x
                < self.provider.next_id() && self.provider.naming() != Some(x) ==> (#[trigger] after.provider.pages().contains_key(x)
                == self.provider.pages().contains_key(x)) && after.provider.pages()[x]
                == self.provider.pages()[x]
    }
}

impl PageBPlusTree<InMemoryPageProvider> {
    /// Create a new B+Tree with in-memory storage.
    pub fn new() -> (r: Self)
        ensures
            r.wf(),
            r.rows() == Map::<Seq<u8>, LeafRow>::empty(),
            r.len == 0,
            r.depth() == 0,
            r.provider.next_id() == 2,
            r.provider.root() == 1,
            r.provider.pages().dom() == set![1u64],
            r.tree() == (Tree::Leaf { id: 1, entries: Seq::empty() }),
            well_shaped(r.tree()),
            snug(r.tree(), None),
            is_valid(r.provider.pages(), r.provider.root()),
    {
        let r = PageBPlusTree::new_with_provider(InMemoryPageProvider::new());
        assert(r.provider.pages().dom() =~= set![1u64]);
        r
    }
}

impl Default for PageBPlusTree<InMemoryPageProvider> {
    fn default() -> (r: Self)
        ensures
            r.wf(),
            r.rows() == Map::<Seq<u8>, LeafRow>::empty(),
            r.len == 0,
            r.provider.next_id() == 2,
            r.tree() == (Tree::Leaf { id: 1, entries: Seq::empty() }),
            well_shaped(r.tree()),
            snug(r.tree(), None),
            is_valid(r.provider.pages(), r.provider.root()),
    {
        PageBPlusTree::new()
    }
}

impl<P: AsyncPageProvider> PageBPlusTree<P> {
    /// Create a new B+Tree with a custom page provider.
    /// The provider should already have a root page.
    pub fn with_provider(provider: P) -> (r: Self)
        ensures
            r.provider == provider,
            r.len == 0,
    {
        PageBPlusTree { provider, len: 0 }
    }

    /// Create a new B+Tree, initializing the root page in the provider.
    pub fn new_with_provider(provider: P) -> (r: Self)
        requires
            0 < provider.next_id() < u64::MAX,
            sized(provider.pages()),
            provider.naming() matches Some(x) ==> x < provider.next_id(),
        ensures
            r.wf(),
            r.provider.naming() == provider.naming(),
            r.rows() == Map::<Seq<u8>, LeafRow>::empty(),
            r.len == 0,
            r.depth() == 0,
            r.provider.root() == provider.next_id(),
            r.tree() == (Tree::Leaf { id: r.provider.root(), entries: Seq::empty() }),
            well_shaped(r.tree()),
            snug(r.tree(), None),
            is_valid(r.provider.pages(), r.provider.root()),
            r.provider.next_id() == provider.next_id() + 1,
            r.provider.pages() == with_root(
                provider.pages().insert(
                    provider.next_id() as u64,
                    r.provider.pages()[provider.next_id() as u64],
                ),
                provider.naming(),
                r.provider.root(),
            ),
    {
        let mut provider = provider;
        let root_id: PageId = provider.alloc_page_id();
        let page = new_page(PAGE_TYPE_LEAF, 0);
        provider.write_page(root_id, page);
        let ghost m1 = provider.pages();
        provider.set_root_page_id(root_id);
        let ghost t = Tree::Leaf { id: root_id, entries: Seq::empty() };
        let r = PageBPlusTree { provider, len: 0 };
        proof {
            let m = r.provider.pages();
            let n = r.provider.next_id();
            lemma_leaf_tree(root_id, Seq::empty());
            reveal(ok);
            assert(tree_at(m1, root_id, n, t, 0));
            assert(r.provider.naming() matches Some(x) ==> !has_id(t, x)) by {
                reveal(has_id);
            }
            lemma_name_root(t, m1, r.provider.naming(), root_id, n, 0);
            lemma_the_tree(m, root_id, n, t, 0);
            assert(rows_of(t) =~= Map::<Seq<u8>, LeafRow>::empty());
            lemma_filled_leaf(t);
            lemma_snug_leaf(t, None);
            law_single_leaf_is_valid(m, root_id, n, t, 0);
        }
        r
    }

    /// Get a reference to the page provider.
    pub fn provider(&self) -> (r: &P)
        ensures
            *r == self.provider,
    {
        &self.provider
    }

    /// How many levels the leaves are below the root, unless lookups give up
    /// before they reach them.
    pub fn levels(&self) -> (r: Option<usize>)
        requires
            self.wf(),
        ensures
            match r {
                Some(d) => d == self.depth() && d < MAX_SCAN_LEAF_HOPS,
                None => self.depth() >= MAX_SCAN_LEAF_HOPS,
            },
    {
        let ghost m = self.provider.pages();
        let ghost own = ids_below(self.provider.next_id());
        let ghost mut below = self.tree();
        let ghost mut upper = key_top();
        let ghost mut after: PageId = 0;
        let ghost mut left = self.depth();
        let mut current: PageId = self.provider.root_page_id();
        let mut hops: usize = 0;
        while hops < MAX_SCAN_LEAF_HOPS
            invariant
                m == self.provider.pages(),
                hops <= MAX_SCAN_LEAF_HOPS,
                ok(below, m, own, 0, upper, after, left),
                below.id() == current,
                left + hops == self.depth(),
            decreases MAX_SCAN_LEAF_HOPS - hops,
        {
            proof {
                lemma_top_page(below, m, own, 0, upper, after, left);
                lemma_canonical_table(m[current]);
            }
            let page = self.provider.read_page(current).unwrap();
            let header = page_header(page_bytes(&page));
            if header.page_type == PAGE_TYPE_LEAF {
                return Some(hops);
            }
            proof {
                let kids = below->Node_kids;
                let e = below.entries();
                lemma_kid(e, kids, m, own, 0, upper, after, left, 0);
                let upper2 = bound(e, 0, upper, 1);
                after = next_of(kids, after, 0);
                upper = upper2;
                left = (left - 1) as nat;
                below = kids[0];
            }
            current = header.left_child;
            hops += 1;
        }
        None
    }

    pub fn root_page_id(&self) -> (r: PageId)
        ensures
            r == self.provider.root(),
    {
        self.provider.root_page_id()
    }

    /// Rows put in less rows taken out through this handle.
    pub fn len(&self) -> (r: usize)
        requires
            self.len <= usize::MAX,
        ensures
            r == self.len,
    {
        self.len as usize
    }

    pub fn is_empty(&self) -> (r: bool)
        ensures
            r == (self.len == 0),
    {
        self.len == 0
    }

    /// Goes down from the root to the leaf that `key` belongs to.
    pub fn find_leaf_for_read(&self, key: &[u8]) -> (r: Option<PageId>)
        requires
            self.wf(),
        ensures
            match r {
                Some(id) => self.depth() < MAX_SCAN_LEAF_HOPS && id == self.leaf_of(key@).id,
                None => self.depth() >= MAX_SCAN_LEAF_HOPS,
            },
    {
        let ghost m = self.provider.pages();
        let ghost n = self.provider.next_id();
        let ghost own = ids_below(n);
        let ghost kn = route_num(key@);
        let ghost t = self.tree();
        let mut current: PageId = self.provider.root_page_id();
        let mut hops: usize = 0;
        let ghost mut sub = t;
        let ghost mut lo = 0int;
        let ghost mut hi = key_top();
        let ghost mut next = 0u64;
        while hops < MAX_SCAN_LEAF_HOPS
            invariant
                self.wf(),
                m == self.provider.pages(),
                n == self.provider.next_id(),
                own == ids_below(n),
                kn == route_num(key@),
                t == self.tree(),
                hops <= MAX_SCAN_LEAF_HOPS,
                hops <= self.depth(),
                ok(sub, m, own, lo, hi, next, (self.depth() - hops) as nat),
                sub.id() == current,
                leaf_for(sub, kn, lo, hi, next) == leaf_for(t, kn, 0, key_top(), 0),
            decreases MAX_SCAN_LEAF_HOPS - hops,
        {
            proof {
                lemma_top_page(sub, m, own, lo, hi, next, (self.depth() - hops) as nat);
                lemma_canonical_table(m[current]);
                reveal(leaf_for);
            }
            let page = match self.provider.read_page(current) {
                Some(p) => p,
                None => {
                    return None;
                },
            };
            let bytes = page_bytes(&page);
            let header = page_header(bytes);
            if header.page_type == PAGE_TYPE_LEAF {
                return Some(current);
            }
            let ghost e = sub.entries();
            let ghost kids = sub->Node_kids;
            let pos: usize = child_insert_pos_for_key(bytes, key);
            proof {
                lemma_route_unique(key_nums(e), kn, pos as int);
                lemma_child_of(node_of(m[current]), e, kids, lo, hi, pos as int);
                lemma_kid(
                    e,
                    kids,
                    m,
                    own,
                    lo,
                    hi,
                    next,
                    (self.depth() - hops) as nat,
                    pos as int,
                );
            }
            let child: PageId = child_id_at_pos(bytes, pos);
            proof {
                sub = kids[pos as int];
                next = next_of(kids, next, pos as int);
                let l = bound(e, lo, hi, pos as int);
                hi = bound(e, lo, hi, pos + 1);
                lo = l;
            }
            current = child;
            hops += 1;
        }
        None
    }

    /// The row of `key`.
    pub fn get(&self, key: &[u8]) -> (r: Option<LeafValueRef>)
        requires
            self.wf(),
        ensures
            self.depth() < MAX_SCAN_LEAF_HOPS ==> (match r {
                Some(v) => self.rows().contains_key(key@) && v.row() == self.rows()[key@],
                None => !self.rows().contains_key(key@),
            }),
            self.depth() >= MAX_SCAN_LEAF_HOPS ==> r is None,
            well_shaped(self.tree()) ==> self.depth() < MAX_SCAN_LEAF_HOPS,
    {
        proof {
            if well_shaped(self.tree()) {
                lemma_shallow(self, 0);
            }
        }
        if key.len() != KEY_SIZE {
            return None;
        }
        let ghost m = self.provider.pages();
        let ghost n = self.provider.next_id();
        let ghost t = self.tree();
        let ghost kn = be_num(key@);
        match self.find_leaf_for_read(key) {
            None => None,
            Some(leaf_id) => {
                let ghost pos = self.leaf_of(key@);
                proof {
                    crate::key_order::lemma_route_num(key@, key@);
                    lemma_key_range(key@);
                    lemma_leaf_for(t, m, ids_below(n), 0, key_top(), 0, self.depth(), kn);
                }
                match self.provider.read_page(leaf_id) {
                    None => None,
                    Some(page) => {
                        proof {
                            lemma_canonical_table(m[leaf_id]);
                        }
                        let r = find_in_leaf(&page, key);
                        proof {
                            let e = pos.entries;
                            if r is Some {
                                let i = choose|i: int|
                                    0 <= i < e.len() && (#[trigger] e[i]).0 == key@
                                        && r->Some_0.row() == row_of(e[i].1);
                                super::tree_model::lemma_leaf_get(e, i);
                            } else {
                                assert forall|i: int| 0 <= i < e.len() implies be_num(
                                    (#[trigger] e[i]).0,
                                ) != kn by {
                                    lemma_lex_is_num_order(e[i].0, key@);
                                }
                            }
                        }
                        r
                    },
                }
            },
        }
    }

    /// Splits the root when no entry fits it any more, under a new root.
    #[verifier::spinoff_prover]
    fn ensure_root_not_full(&mut self) -> (r: Result<()>)
        requires
            old(self).wf(),
            old(self).provider.next_id() + 2 <= u64::MAX,
        ensures
            forall|base: Map<PageId, Seq<u8>>| #[trigger]
                old(self).provider.covers(base) ==> final(self).provider.covers(base),
            r is Ok,
            final(self).wf(),
            final(self).provider.naming() == old(self).provider.naming(),
            final(self).len == old(self).len,
            old(self).provider.next_id() <= final(self).provider.next_id() <= old(
                self,
            ).provider.next_id() + 2,
            final(self).depth() <= old(self).depth() + 1,
            has_room(final(self).tree()),
            forall|k: int|
                0 <= k < key_top() ==> #[trigger] lookup(final(self).tree(), k) == lookup(
                    old(self).tree(),
                    k,
                ),
            forall|x: PageId|
                #[trigger] has_id(final(self).tree(), x) ==> has_id(old(self).tree(), x) || old(
                    self,
                ).provider.next_id() <= x,
            same_but_named(
                old(self).provider.pages(),
                final(self).provider.pages(),
                old(self).tree(),
                old(self).provider.next_id(),
                old(self).provider.naming(),
            ),
            links_cut(
                ids_of(old(self).tree()),
                ids_of(final(self).tree()),
                old(self).provider.pages(),
                final(self).provider.pages(),
                old(self).provider.next_id() as PageId,
            ),
            root_cut(
                final(self).provider.pages(),
                final(self).tree(),
                old(self).provider.next_id() as PageId,
            ),
            first_leaf(final(self).tree()) == first_leaf(old(self).tree()),
            has_room(old(self).tree()) ==> *final(self) == *old(self),
            wrote_more(old(self).provider.written(), final(self).provider.written()),
            listed_from(
                final(self).provider.written(),
                old(self).provider.next_id(),
                final(self).provider.next_id(),
            ),
            ids_grow(
                old(self).tree(),
                final(self).tree(),
                old(self).provider.next_id(),
                final(self).provider.next_id(),
            ),
            !has_room(old(self).tree()) ==> final(self).tree().entries().len() > 0,
            filled(old(self).tree()) ==> filled(final(self).tree()),
            snug(old(self).tree(), None) ==> snug(final(self).tree(), None),
            same_from(
                old(self).provider.pages(),
                final(self).provider.pages(),
                final(self).provider.next_id(),
            ),
    {
        let ghost m0 = self.provider.pages();
        let ghost n0 = self.provider.next_id();
        let ghost own = ids_below(n0);
        let ghost t = self.tree();
        let ghost d = self.depth();
        proof {
            lemma_top_page(t, m0, own, 0, key_top(), 0, d);
            lemma_canonical_table(m0[t.id()]);
        }
        let root_id: PageId = self.provider.root_page_id();
        let root = self.provider.read_page(root_id).unwrap();
        let header = page_header(page_bytes(&root));
        if !page_is_full_for_insert(header) {
            proof {
                let z = n0 as PageId;
                lemma_cut_nothing(ids_of(t), m0, z);
                if has_id(t, z) {
                    lemma_ids_owned(t, m0, own, 0, key_top(), 0, d, z);
                }
            }
            return Ok(());
        }
        proof {
            super::insert::lemma_full_is_large(t);
        }
        let (res, Ghost(halves)) = split_page(
            &mut self.provider,
            root_id,
            &root,
            Ghost(t),
            Ghost(own),
            Ghost(0),
            Ghost(key_top()),
            Ghost(0),
            Ghost(d),
        );
        let (separator, right_id) = match res {
            Ok(v) => v,
            Err(e) => {
                return Err(e);
            },
        };
        let ghost m1 = self.provider.pages();
        let ghost a = halves.0;
        let ghost b = halves.1;
        let level: u8 = if header.level == 255 {
            255
        } else {
            header.level + 1
        };
        let mut new_root = new_page_buf(PAGE_TYPE_INTERNAL, level);
        let mut new_header = page_header(new_root.as_slice());
        new_header.left_child = root_id;
        let ghost sep = separator@;
        let mut entries: Vec<(Vec<u8>, Vec<u8>)> = Vec::new();
        entries.push((separator, encode_child_id(right_id)));
        let ghost e = lone((sep, le8(right_id as int)));
        assert(entries_view(entries@) =~= e);
        match encode_entries(&mut new_root, &entries, new_header) {
            Ok(_) => {},
            Err(err) => {
                return Err(err);
            },
        }
        let ghost rb = new_root@;
        let new_root_id: PageId = self.provider.alloc_page_id();
        self.provider.write_page(new_root_id, page_from_vec(new_root));
        let ghost m2 = self.provider.pages();
        self.provider.set_root_page_id(new_root_id);
        let ghost own2 = ids_below(n0 + 2);
        let ghost t2 = Tree::Node { id: new_root_id, entries: e, kids: two(a, b) };
        proof {
            let own1 = grown(own, n0, n0 + 1);
            assert(own1.subset_of(own2));
            assert(own1 =~= ids_below(n0 + 1));
            assert forall|x: PageId| #[trigger] any_has_id(two(a, b), x) implies x < n0 + 1 by {
                if has_id(t, x) {
                    lemma_ids_owned(t, m0, own, 0, key_top(), 0, d, x);
                }
            }
            super::split::lemma_kids_frame(
                e,
                two(a, b),
                m1,
                m2,
                own1,
                own2,
                0,
                key_top(),
                0,
                d + 1,
                new_root_id,
                n0 + 1,
            );
            assert(two(a, b)[0] == a);
            lemma_make_node(new_root_id, e, two(a, b), m2, own2, 0, key_top(), 0, d + 1);
            assert(t2.entries().len() == 1);
            let en = t2.entries().len() + 1;
            let eu = OFFSET_ENTRY_SIZE + entry_size_of(tree_type(t2));
            assert(en * eu == 52) by (nonlinear_arith)
                requires
                    en == 2,
                    eu == 26,
            ;
            assert(has_room(t2));
            assert(tree_at(m2, new_root_id, n0 + 2, t2, d + 1));
            assert forall|k: int| 0 <= k < key_top() implies #[trigger] lookup(t2, k) == lookup(
                t,
                k,
            ) by {
                assert(lookup_kids(e, two(a, b), k) == lookup(t, k));
            }
            assert forall|x: PageId| !has_id(t, x) && x < n0 implies (#[trigger] m2.contains_key(x)
                == m0.contains_key(x)) && m2[x] == m0[x] by {
                assert(m1.contains_key(x) == m0.contains_key(x));
            }
            assert(!any_has_id(two(a, b), new_root_id));
            lemma_links_new_root(t, t2, m0, m1, m2, right_id);
            assert(ids_grow(t, t2, n0, n0 + 2)) by {
                reveal(links_cut);
                lemma_has_top(t2);
                lemma_has_top(b);
                assert forall|x: PageId| #[trigger] has_id(t, x) implies has_id(t2, x) by {
                    assert(ids_of(t).contains(x));
                    assert(ids_of(t2).contains(x));
                }
                assert forall|x: PageId| n0 <= x < n0 + 2 implies #[trigger] has_id(t2, x) by {
                    if x == right_id {
                        assert(has_id(two(a, b)[1], x));
                        assert(any_has_id(two(a, b), x));
                        super::split::lemma_has_node(new_root_id, e, two(a, b), x);
                    }
                }
            }
            lemma_filled_node(new_root_id, e, two(a, b));
            if snug(t, None) {
                lemma_snug_node(new_root_id, e, two(a, b), None);
                assert(snug(a, None) && snug(b, Some(be_num(sep))));
                assert forall|i: int| 0 <= i < two(a, b).len() implies snug(
                    #[trigger] two(a, b)[i],
                    low_of(e, None, i),
                ) by {
                    assert(e[0].0 == sep);
                }
            }
            assert forall|x: PageId| x >= n0 + 2 implies (#[trigger] m2.contains_key(x)
                == m0.contains_key(x)) && m2[x] == m0[x] by {
                assert(m1.contains_key(x) == m0.contains_key(x));
            }
            let naming = self.provider.naming();
            lemma_name_new_root(t, t2, m0, m2, naming, new_root_id, n0, n0 + 2, right_id);
            lemma_name_root(t2, m2, naming, new_root_id, n0 + 2, d + 1);
            lemma_the_tree(self.provider.pages(), new_root_id, n0 + 2, t2, d + 1);
        }
        Ok(())
    }

    /// Locking and concurrency belong to the caller; one writer at a time.
    ///
    /// Puts the row in, in place of an earlier row of the key.
    #[verifier::spinoff_prover]
    #[verifier::rlimit(40)]
    pub fn insert(&mut self, key: Vec<u8>, leaf_value: LeafValue) -> (r: Result<()>)
        requires
            old(self).wf(),
            old(self).provider.next_id() + old(self).depth() + 3 <= u64::MAX,
            old(self).len < u64::MAX,
        ensures
            forall|base: Map<PageId, Seq<u8>>| #[trigger]
                old(self).provider.covers(base) ==> final(self).provider.covers(base),
            !is_key(key@) ==> *final(self) == *old(self) && (r matches Err(
                Error::InvalidKeySize(a, b),
            ) && a == key@.len() && b == KEY_SIZE),
            is_key(key@) ==> {
                &&& r is Ok
                &&& final(self).wf()
                &&& final(self).rows() == old(self).rows().insert(key@, leaf_value.row())
                &&& final(self).len == old(self).len + (if old(self).rows().contains_key(key@) {
                    0int
                } else {
                    1
                })
                &&& final(self).depth() <= old(self).depth() + 1
                &&& old(self).provider.next_id() <= final(self).provider.next_id() <= old(
                    self,
                ).provider.next_id() + old(self).depth() + 3
                &&& final(self).provider.naming() == old(self).provider.naming()
                &&& same_but_named(
                    old(self).provider.pages(),
                    final(self).provider.pages(),
                    old(self).tree(),
                    old(self).provider.next_id(),
                    old(self).provider.naming(),
                )
                &&& links_kept(
                    ids_of(old(self).tree()),
                    ids_of(final(self).tree()),
                    old(self).provider.pages(),
                    final(self).provider.pages(),
                    key@,
                )
                &&& first_leaf(final(self).tree()) == first_leaf(old(self).tree())
                &&& well_shaped(old(self).tree()) ==> well_shaped(final(self).tree())
                &&& snug(old(self).tree(), None) ==> snug(final(self).tree(), None) && firsts_kept(
                    old(self).tree(),
                    old(self).provider.pages(),
                    final(self).provider.pages(),
                    false,
                )
                &&& snug(old(self).tree(), None) && is_valid(
                    old(self).provider.pages(),
                    old(self).provider.root(),
                ) ==> is_valid(final(self).provider.pages(), final(self).provider.root())
                &&& same_from(
                    old(self).provider.pages(),
                    final(self).provider.pages(),
                    final(self).provider.next_id(),
                )
                &&& wrote_more(old(self).provider.written(), final(self).provider.written())
                &&& forall|x: PageId|
                    #[trigger] has_id(final(self).tree(), x) ==> has_id(old(self).tree(), x) || old(
                        self,
                    ).provider.next_id() <= x < final(self).provider.next_id()
                &&& listed_from(
                    final(self).provider.written(),
                    old(self).provider.next_id(),
                    final(self).provider.next_id(),
                )
                &&& ids_grow(
                    old(self).tree(),
                    final(self).tree(),
                    old(self).provider.next_id(),
                    final(self).provider.next_id(),
                )
                &&& roomy(old(self).tree(), be_num(key@)) ==> old(self).wrote_one(
                    final(self),
                    be_num(key@),
                )
            },
    {
        if key.len() != KEY_SIZE {
            return Err(Error::InvalidKeySize(key.len(), KEY_SIZE));
        }
        let ghost m0 = self.provider.pages();
        let ghost n0 = self.provider.next_id();
        let ghost t = self.tree();
        let ghost d0 = self.depth();
        let ghost kn = be_num(key@);
        let encoded = encode_leaf_value(&leaf_value);
        proof {
            lemma_depth_bound(m0, self.provider.root(), n0, t, d0);
            lemma_key_range(key@);
        }
        match self.ensure_root_not_full() {
            Ok(_) => {},
            Err(e) => {
                return Err(e);
            },
        }
        let ghost m1 = self.provider.pages();
        let ghost n1 = self.provider.next_id();
        let ghost t1 = self.tree();
        let ghost d = self.depth();
        let root_id: PageId = self.provider.root_page_id();
        let (res, Ghost(t2)) = insert_below(
            &mut self.provider,
            root_id,
            key.as_slice(),
            encoded.as_slice(),
            Ghost(t1),
            Ghost(ids_below(n1)),
            Ghost(0),
            Ghost(key_top()),
            Ghost(0),
            Ghost(d),
        );
        let added: bool = match res {
            Ok(v) => v,
            Err(e) => {
                return Err(e);
            },
        };
        if added {
            self.len = self.len + 1;
        }
        proof {
            let m2 = self.provider.pages();
            let n2 = self.provider.next_id();
            assert(grown(ids_below(n1), n1, n2) =~= ids_below(n2));
            assert(tree_at(m2, root_id, n2, t2, d));
            lemma_the_tree(m2, root_id, n2, t2, d);
            assert(lookup(t1, kn) == lookup(t, kn));
            let want = rows_of(t).insert(key@, leaf_value.row());
            assert forall|k: Seq<u8>| is_key(k) implies lookup(t2, #[trigger] be_num(k)) == (if k
                == key@ {
                Some(encoded@)
            } else {
                lookup(t, be_num(k))
            }) by {
                lemma_key_range(k);
                lemma_lex_is_num_order(k, key@);
                assert(lookup(t1, be_num(k)) == lookup(t, be_num(k)));
            }
            assert(rows_of(t2) =~= want);
            assert(insert_shape(t1, t2, m1, m2, kn, n1, n2));
            lemma_outside_twice(t, t1, m0, m1, m2, n0, n1, self.provider.naming());
            assert(named(t2, m2, self.provider.naming(), root_id, n2)) by {
                match self.provider.naming() {
                    Some(x) => {
                        assert(!has_id(t1, x));
                        assert(!has_id(t2, x));
                        assert(m2.contains_key(x) == m1.contains_key(x));
                    },
                    None => {},
                }
            }
            lemma_from_twice(m0, m1, m2, n1, n2);
            lemma_ids_twice(t, t1, t2, n0, n1, n2);
            assert(self.tree() == t2);
            assert forall|x: PageId| #[trigger] has_id(t2, x) implies has_id(t, x) || n0 <= x < n2 by {
                lemma_ids_owned(t2, m2, ids_below(n2), 0, key_top(), 0, d, x);
                if has_id(t1, x) {
                    assert(has_id(t, x) || n0 <= x);
                }
            }
            assert(self.rows() == want);
            assert(self.depth() == d);
            assert(rows_of(t).contains_key(key@) == lookup(t, kn) is Some);
            assert(added == lookup(t1, kn) is None);
            lemma_links_insert(t, t1, t2, m0, m1, m2, n0 as PageId, n1, d, key@);
            assert(well_shaped(t) ==> well_shaped(t2)) by {
                if well_shaped(t) && t2 is Node {
                    assert(t1 is Node ==> t1.entries().len() > 0);
                    lemma_top_page(t1, m1, ids_below(n1), 0, key_top(), 0, d);
                    lemma_top_page(t2, m2, ids_below(n2), 0, key_top(), 0, d);
                }
            }
            if roomy(t, kn) {
                assert(has_room(t)) by {
                    reveal(roomy);
                }
                assert(old(self).wrote_one(self, kn));
            }
            if snug(t, None) {
                lemma_snug_twice(t, t1, t2, m0, m1, m2, n0 as PageId, kn);
                if is_valid(m0, old(self).provider.root()) {
                    law_insert_keeps_valid(
                        m0,
                        old(self).provider.root(),
                        n0,
                        t,
                        d0,
                        m2,
                        root_id,
                        n2,
                        t2,
                        d,
                        key@,
                    );
                }
            }
        }
        Ok(())
    }

    /// Drops roots that have a single child.
    #[verifier::spinoff_prover]
    fn maybe_collapse_root_after_delete(&mut self)
        requires
            old(self).wf(),
        ensures
            forall|base: Map<PageId, Seq<u8>>| #[trigger]
                old(self).provider.covers(base) ==> final(self).provider.covers(base),
            final(self).wf(),
            final(self).provider.naming() == old(self).provider.naming(),
            final(self).len == old(self).len,
            final(self).provider.pages() == with_root(
                old(self).provider.pages(),
                old(self).provider.naming(),
                final(self).provider.root(),
            ),
            final(self).provider.next_id() == old(self).provider.next_id(),
            final(self).depth() <= old(self).depth(),
            forall|k: int|
                0 <= k < key_top() ==> #[trigger] lookup(final(self).tree(), k) == lookup(
                    old(self).tree(),
                    k,
                ),
            forall|x: PageId|
                #[trigger] has_id(final(self).tree(), x) ==> has_id(old(self).tree(), x),
            first_leaf(final(self).tree()) == first_leaf(old(self).tree()),
            final(self).tree() == without_bare_roots(old(self).tree()),
            final(self).provider.root() == without_bare_roots(old(self).tree()).id(),
    {
        let ghost m0 = self.provider.pages();
        let ghost naming = self.provider.naming();
        let ghost n = self.provider.next_id();
        let ghost own = ids_below(n);
        let ghost t0 = self.tree();
        assert(with_root(m0, naming, self.provider.root()) =~= m0);
        loop
            invariant
                self.wf(),
                self.len == old(self).len,
                self.provider.pages() == with_root(m0, naming, self.provider.root()),
                self.provider.naming() == naming,
                naming == old(self).provider.naming(),
                self.provider.next_id() == n,
                m0 == old(self).provider.pages(),
                n == old(self).provider.next_id(),
                own == ids_below(n),
                t0 == old(self).tree(),
                self.depth() <= old(self).depth(),
                forall|base: Map<PageId, Seq<u8>>| #[trigger]
                    old(self).provider.covers(base) ==> self.provider.covers(base),
                forall|k: int|
                    0 <= k < key_top() ==> #[trigger] lookup(self.tree(), k) == lookup(t0, k),
                forall|x: PageId| #[trigger] has_id(self.tree(), x) ==> has_id(t0, x),
                first_leaf(self.tree()) == first_leaf(t0),
                without_bare_roots(self.tree()) == without_bare_roots(t0),
            decreases self.depth(),
        {
            let ghost m = self.provider.pages();
            let ghost t = self.tree();
            let ghost d = self.depth();
            proof {
                lemma_top_page(t, m, own, 0, key_top(), 0, d);
                lemma_canonical_table(m[t.id()]);
            }
            let root_id: PageId = self.provider.root_page_id();
            let root = match self.provider.read_page(root_id) {
                Some(p) => p,
                None => {
                    return ;
                },
            };
            let header = page_header(page_bytes(&root));
            if header.page_type == PAGE_TYPE_INTERNAL && header.key_count == 0 && header.left_child
                != 0 {
                let ghost e = t.entries();
                let ghost kids = t->Node_kids;
                let ghost c = kids[0];
                self.provider.set_root_page_id(header.left_child);
                proof {
                    assert(t == Tree::Node { id: root_id, entries: e, kids });
                    lemma_kid(e, kids, m, own, 0, key_top(), 0, d, 0);
                    lemma_next_of(kids, 0, 0);
                    lemma_open_node(root_id, e, kids);
                    assert(distinct(kids[0]));
                    assert(tree_at(m, header.left_child, n, c, (d - 1) as nat));
                    assert forall|x: PageId| #[trigger] has_id(c, x) implies has_id(t, x) by {
                        assert(has_id(kids[0], x));
                        assert(any_has_id(kids, x));
                    }
                    lemma_name_root(c, m, naming, header.left_child, n, (d - 1) as nat);
                    let m2 = self.provider.pages();
                    assert(m2 =~= with_root(m0, naming, header.left_child));
                    lemma_the_tree(m2, header.left_child, n, c, (d - 1) as nat);
                    lemma_lookup_node(root_id, e, kids, 0, key_top());
                    assert forall|k: int| 0 <= k < key_top() implies #[trigger] lookup(c, k)
                        == lookup(t0, k) by {
                        assert(lookup(t, k) == lookup(t0, k));
                        lemma_route_unique(key_nums(e), k, 0);
                    }
                    assert forall|x: PageId| #[trigger] has_id(c, x) implies has_id(t0, x) by {
                        assert(has_id(kids[0], x));
                        assert(any_has_id(kids, x));
                        assert(has_id(t, x));
                    }
                }
                continue;
            }
            proof {
                if t is Node {
                    let e = t.entries();
                    let kids = t->Node_kids;
                    lemma_kid(e, kids, m, own, 0, key_top(), 0, d, 0);
                    lemma_top_page(
                        kids[0],
                        m,
                        own,
                        0,
                        bound(e, 0, key_top(), 1),
                        next_of(kids, 0, 0),
                        (d - 1) as nat,
                    );
                    assert(header.key_count == e.len());
                }
                assert(without_bare_roots(t) == t);
            }
            return ;
        }
    }

    /// Takes the row of `key` out.
    #[verifier::spinoff_prover]
    #[verifier::rlimit(40)]
    pub fn remove(&mut self, key: &[u8]) -> (r: Result<()>)
        requires
            old(self).wf(),
        ensures
            forall|base: Map<PageId, Seq<u8>>| #[trigger]
                old(self).provider.covers(base) ==> final(self).provider.covers(base),
            !is_key(key@) ==> *final(self) == *old(self) && (r matches Err(
                Error::InvalidKeySize(a, b),
            ) && a == key@.len() && b == KEY_SIZE),
            is_key(key@) ==> {
                &&& r is Ok
                &&& final(self).wf()
                &&& final(self).rows() == old(self).rows().remove(key@)
                &&& final(self).len == (if old(self).rows().contains_key(key@) && old(self).len > 0 {
                    old(self).len - 1
                } else {
                    old(self).len as int
                })
                &&& final(self).depth() <= old(self).depth()
                &&& final(self).provider.next_id() == old(self).provider.next_id()
                &&& final(self).provider.naming() == old(self).provider.naming()
                &&& old(self).others_kept(final(self))
                &&& old(self).rows().contains_key(key@) && old(self).depth() < MAX_SCAN_LEAF_HOPS
                    ==> fresh_until(
                    final(self).provider.pages(),
                    first_leaf(final(self).tree()),
                    MAX_SCAN_LEAF_HOPS as int,
                )
                &&& forall|x: PageId|
                    #[trigger] has_id(final(self).tree(), x) ==> has_id(old(self).tree(), x)
                &&& first_leaf(final(self).tree()) == first_leaf(old(self).tree())
                &&& without_bare_roots(final(self).tree()) == final(self).tree()
                &&& well_shaped(old(self).tree()) ==> well_shaped(final(self).tree())
                &&& well_shaped(old(self).tree()) && old(self).rows().contains_key(key@)
                    && chain_page(
                    final(self).provider.pages(),
                    first_leaf(final(self).tree()),
                    MAX_SCAN_LEAF_HOPS as int,
                ) is None ==> is_valid(final(self).provider.pages(), final(self).provider.root())
            },
    {
        if key.len() != KEY_SIZE {
            return Err(Error::InvalidKeySize(key.len(), KEY_SIZE));
        }
        let ghost m0 = self.provider.pages();
        let ghost n = self.provider.next_id();
        let ghost own = ids_below(n);
        let ghost t = self.tree();
        let ghost d = self.depth();
        let ghost kn = be_num(key@);
        let ghost root = self.provider.root();
        proof {
            lemma_key_range(key@);
        }
        let root_id: PageId = self.provider.root_page_id();
        let (leaf, Ghost(t1)) = remove_below(
            &mut self.provider,
            root_id,
            key,
            Ghost(t),
            Ghost(own),
            Ghost(0),
            Ghost(key_top()),
            Ghost(0),
            Ghost(d),
        );
        let ghost m1 = self.provider.pages();
        match leaf {
            Some(leaf_id) => {
                if self.len > 0 {
                    self.len = self.len - 1;
                }
                repair_leaf_boundary_after_delete(
                    &mut self.provider,
                    leaf_id,
                    Ghost(t1),
                    Ghost(own),
                    Ghost(key_top()),
                    Ghost(d),
                );
                let ghost m2 = self.provider.pages();
                refresh_leaf_high_keys(
                    &mut self.provider,
                    Ghost(t1),
                    Ghost(own),
                    Ghost(key_top()),
                    Ghost(d),
                );
                let ghost m3 = self.provider.pages();
                proof {
                    assert forall|x: PageId| !has_id(t, x) && !stale(m0, t, x) implies (
                    #[trigger] m3.contains_key(x) == m0.contains_key(x)) && m3[x] == m0[x] by {
                        assert(!has_id(t1, x));
                        assert(m1.contains_key(x) == m0.contains_key(x));
                        assert(!stale(m1, t1, x)) by {
                            if stale(m1, t1, x) {
                                let nx = node_of(m1[x]).next_leaf->Some_0;
                                assert(has_id(t1, nx));
                            }
                        }
                        assert(m2.contains_key(x) == m1.contains_key(x));
                        assert(m3.contains_key(x) == m2.contains_key(x));
                    }
                }
            },
            None => {
                proof {
                    assert forall|x: PageId| !has_id(t, x) && !stale(m0, t, x) implies (
                    #[trigger] m1.contains_key(x) == m0.contains_key(x)) && m1[x] == m0[x] by {}
                }
            },
        }
        proof {
            let m4 = self.provider.pages();
            assert(tree_at(m4, root, n, t1, d));
            lemma_the_tree(m4, root, n, t1, d);
            assert(named(t1, m4, self.provider.naming(), root, n)) by {
                match self.provider.naming() {
                    Some(x) => {
                        law_btree_meta_round_trip(root);
                        assert(!stale(m0, t, x));
                        assert(m4.contains_key(x) == m0.contains_key(x));
                    },
                    None => {},
                }
            }
        }
        let ghost m4 = self.provider.pages();
        self.maybe_collapse_root_after_delete();
        proof {
            let t3 = self.tree();
            let want = rows_of(t).remove(key@);
            assert forall|k: Seq<u8>| is_key(k) implies lookup(t3, #[trigger] be_num(k)) == (if k
                == key@ {
                None
            } else {
                lookup(t, be_num(k))
            }) by {
                lemma_key_range(k);
                lemma_lex_is_num_order(k, key@);
                assert(lookup(t3, be_num(k)) == lookup(t1, be_num(k)));
            }
            assert(rows_of(t3) =~= want);
            lemma_bare_roots(t1);
            lemma_top_page(
                t3,
                self.provider.pages(),
                ids_below(n),
                0,
                key_top(),
                0,
                self.depth(),
            );
            assert(self.tree() == t3 && t3 == without_bare_roots(t1));
            assert(self.rows() == want);
            assert(well_shaped(t) ==> well_shaped(t3));
            assert(first_leaf(t3) == first_leaf(t));
            assert(self.depth() <= d);
            assert(old(self).others_kept(self));
            let m5 = self.provider.pages();
            if old(self).rows().contains_key(key@) && d < MAX_SCAN_LEAF_HOPS {
                lemma_fresh_named(
                    t1,
                    m4,
                    self.provider.naming(),
                    root,
                    self.provider.root(),
                    n,
                    d,
                    MAX_SCAN_LEAF_HOPS as int,
                );
            }
            if well_shaped(t) && old(self).rows().contains_key(key@) && chain_page(
                m5,
                first_leaf(t3),
                MAX_SCAN_LEAF_HOPS as int,
            ) is None {
                lemma_shallow(old(self), 0);
                law_removal_leaves_valid(m5, self.provider.root(), n, t3, self.depth());
            }
        }
        Ok(())
    }
}

/// The leaf for `k` is a leaf of the tree, and holds the payload of `k`.
pub proof fn lemma_leaf_for(
    t: Tree,
    m: Map<PageId, Seq<u8>>,
    own: Set<PageId>,
    lo: int,
    hi: int,
    next: PageId,
    depth: nat,
    k: int,
)
    requires
        ok(t, m, own, lo, hi, next, depth),
        k < hi,
    ensures
        ({
            let p = leaf_for(t, k, lo, hi, next);
            &&& has_id(t, p.id)
            &&& ok(Tree::Leaf { id: p.id, entries: p.entries }, m, own, p.lo, p.hi, p.next, 0)
            &&& m.contains_key(p.id)
            &&& super::node_page::canonical(m[p.id])
            &&& node_of(m[p.id]).page_type == PAGE_TYPE_LEAF
            &&& node_of(m[p.id]).entries == p.entries
            &&& keys_ok(p.entries, p.lo, p.hi)
            &&& k < p.hi
            &&& (lo <= k ==> p.lo <= k && lookup(t, k) == leaf_get(p.entries, k))
            &&& (k < lo ==> p.lo == lo)
        }),
    decreases t,
{
    reveal(leaf_for);
    lemma_top_page(t, m, own, lo, hi, next, depth);
    lemma_has_top(t);
    match t {
        Tree::Leaf { id, entries } => {
            lemma_leaf_tree(id, entries);
            reveal(ok);
        },
        Tree::Node { id, entries, kids } => {
            let ks = key_nums(entries);
            lemma_route(ks, k);
            let r = route(ks, k);
            if k < lo {
                if r > 0 {
                    assert(ks[r - 1] <= k);
                    assert(lo < be_num(entries[r - 1].0));
                }
            } else {
                lemma_route_bounds(entries, kids, lo, hi, k);
            }
            if r < entries.len() {
                assert(k < ks[r]);
            }
            lemma_kid(entries, kids, m, own, lo, hi, next, depth, r);
            lemma_leaf_for(
                kids[r],
                m,
                own,
                bound(entries, lo, hi, r),
                bound(entries, lo, hi, r + 1),
                next_of(kids, next, r),
                (depth - 1) as nat,
                k,
            );
            let p = leaf_for(t, k, lo, hi, next);
            assert(has_id(kids[r], p.id));
            assert(any_has_id(kids, p.id));
            super::split::lemma_has_node(id, entries, kids, p.id);
            lemma_lookup_node(id, entries, kids, lo, hi);
            assert(lo <= k ==> lookup(t, k) == lookup_kids(entries, kids, k));
        },
    }
}

/// A tree for which lookups do not give up is not too deep.
pub proof fn lemma_shallow<P: AsyncPageProvider>(tree: &PageBPlusTree<P>, n: int)
    requires
        tree.wf(),
        tree.shallow_for(n),
        0 <= n,
    ensures
        tree.depth() < MAX_SCAN_LEAF_HOPS,
{
    if well_shaped(tree.tree()) {
        super::validity::law_shaped_tree_is_shallow(
            tree.provider.pages(),
            tree.provider.root(),
            tree.provider.next_id(),
            tree.tree(),
            tree.depth(),
        );
    }
}

/// A page of the tree is there.
pub proof fn lemma_tree_page<P: AsyncPageProvider>(tree: &PageBPlusTree<P>, x: PageId)
    requires
        tree.wf(),
        has_id(tree.tree(), x),
    ensures
        tree.provider.pages().contains_key(x),
        x < tree.provider.next_id(),
{
    let m = tree.provider.pages();
    let n = tree.provider.next_id();
    lemma_ids_owned(tree.tree(), m, ids_below(n), 0, key_top(), 0, tree.depth(), x);
}

/// A row that the tree holds has a value of the fixed size.
pub proof fn lemma_row_size<P: AsyncPageProvider>(tree: &PageBPlusTree<P>, key: Seq<u8>)
    requires
        tree.wf(),
        tree.rows().contains_key(key),
    ensures
        tree.rows()[key].value.len() == VALUE_SIZE,
{
    let m = tree.provider.pages();
    let n = tree.provider.next_id();
    let t = tree.tree();
    let kn = be_num(key);
    lemma_key_range(key);
    lemma_leaf_for(t, m, ids_below(n), 0, key_top(), 0, tree.depth(), kn);
    let p = leaf_for(t, kn, 0, key_top(), 0);
    let i = choose|i: int| 0 <= i < p.entries.len() && be_num((#[trigger] p.entries[i]).0) == kn;
    lemma_canonical_table(m[p.id]);
    assert(p.entries[i].1.len() == LEAF_VALUE_SIZE);
}

/// A tree that counts its rows goes on to count them: one more for a row of a new
/// key, one less for a row that is taken out.
pub proof fn law_len_counts_rows<P: AsyncPageProvider>(
    before: PageBPlusTree<P>,
    after: PageBPlusTree<P>,
    key: Seq<u8>,
    row: Option<LeafRow>,
)
    requires
        before.counted(),
        match row {
            Some(r) => {
                &&& after.rows() == before.rows().insert(key, r)
                &&& after.len == before.len + (if before.rows().contains_key(key) {
                    0int
                } else {
                    1
                })
            },
            None => {
                &&& after.rows() == before.rows().remove(key)
                &&& after.len == (if before.rows().contains_key(key) && before.len > 0 {
                    before.len - 1
                } else {
                    before.len as int
                })
            },
        },
    ensures
        after.counted(),
{
    let d = before.rows().dom();
    match row {
        Some(r) => {
            assert(after.rows().dom() =~= d.insert(key));
        },
        None => {
            assert(after.rows().dom() =~= d.remove(key));
            if d.contains(key) {
                assert(d.len() > 0);
            }
        },
    }
}

/// Taking a row out again leaves the rows as they were before it was put in.
pub proof fn law_insert_then_remove(rows: Map<Seq<u8>, LeafRow>, key: Seq<u8>, row: LeafRow)
    requires
        !rows.contains_key(key),
    ensures
        rows.insert(key, row).remove(key) == rows,
{
    assert(rows.insert(key, row).remove(key) =~= rows);
}

} // verus!
