//! The shape that inserts and removes keep: how full pages are, where the first
//! keys of leaves stand, and which pages an insert writes.
use vstd::prelude::*;

use super::chain::first_of;
use super::links::{forest, lemma_spliced_ids, links_cut};
use super::node_page::{entry_size_of, key_nums, max_keys_of, node_of, HEADER_SIZE,
    OFFSET_ENTRY_SIZE, PAGE_TYPE_INTERNAL, PAGE_TYPE_LEAF};
use super::split::{has_room, lemma_open_node, lemma_top_page, lone, own_below, same_outside,
    seq_one, tree_type, two};
use super::tree_lemmas::{spliced_entries, spliced_kids};
use super::tree_model::{any_has_id, distinct, first_leaf, has_id, lemma_has_top, lemma_ids_owned, lemma_route,
    lookup, ok, route, Entries, Tree};
use super::validate::is_leaf;
use super::validity::ids_of;
use crate::common::{PageId, PAGE_SIZE};
use crate::key_order::be_num;

verus! {

/// The fewest entries of a page below the root.
pub open spec fn least_keys_of(page_type: u8) -> int {
    if page_type == PAGE_TYPE_LEAF {
        max_keys_of(page_type) / 2
    } else {
        (max_keys_of(page_type) - 1) / 2
    }
}

/// Every page below the top of the subtree is at least half full.
#[verifier::opaque]
pub open spec fn filled(t: Tree) -> bool
    decreases t,
{
    match t {
        Tree::Leaf { .. } => true,
        Tree::Node { kids, .. } => forall|i: int|
            #![trigger kids[i]]
            0 <= i < kids.len() ==> kids[i].entries().len() >= least_keys_of(tree_type(kids[i]))
                && filled(kids[i]),
    }
}

/// The subtree may stand below the root.
pub open spec fn kid_filled(t: Tree) -> bool {
    t.entries().len() >= least_keys_of(tree_type(t)) && filled(t)
}

pub open spec fn all_filled(kids: Seq<Tree>) -> bool {
    forall|i: int| 0 <= i < kids.len() ==> kid_filled(#[trigger] kids[i])
}

/// The tree is half full below its root, and a root that is no leaf has two
/// children or more.
pub open spec fn well_shaped(t: Tree) -> bool {
    &&& filled(t)
    &&& t is Node ==> t.entries().len() > 0
}

pub proof fn lemma_filled_node(id: PageId, e: Entries, kids: Seq<Tree>)
    ensures
        filled(Tree::Node { id, entries: e, kids }) <==> all_filled(kids),
{
    let t = Tree::Node { id, entries: e, kids };
    reveal_with_fuel(filled, 2);
    if filled(t) {
        assert forall|i: int| 0 <= i < kids.len() implies kid_filled(#[trigger] kids[i]) by {
            assert(filled(t->Node_kids[i]));
        }
    }
    if all_filled(kids) {
        assert forall|i: int|
            #![trigger kids[i]]
            0 <= i < kids.len() implies kids[i].entries().len() >= least_keys_of(
            tree_type(kids[i]),
        ) && filled(kids[i]) by {
            assert(kid_filled(kids[i]));
        }
    }
}

pub proof fn lemma_filled_leaf(t: Tree)
    requires
        t is Leaf,
    ensures
        filled(t),
{
    reveal(filled);
}

/// Children taken out and others put in their place.
pub proof fn lemma_filled_spliced(kids: Seq<Tree>, i: int, a: int, cs: Seq<Tree>)
    requires
        all_filled(kids),
        all_filled(cs),
        0 <= i,
        0 <= a,
        i + a <= kids.len(),
    ensures
        all_filled(spliced_kids(kids, i, a, cs)),
{
    let k2 = spliced_kids(kids, i, a, cs);
    assert forall|j: int| 0 <= j < k2.len() implies kid_filled(#[trigger] k2[j]) by {
        if j < i {
            assert(k2[j] == kids[j]);
        } else if j < i + cs.len() {
            assert(k2[j] == cs[j - i]);
        } else {
            assert(k2[j] == kids[j - cs.len() + a]);
        }
    }
}

/// The lowest key that child `i` is for, where it is known.
pub open spec fn low_of(e: Entries, low: Option<int>, i: int) -> Option<int> {
    if i <= 0 {
        low
    } else {
        Some(be_num(e[i - 1].0))
    }
}

/// The first key of each leaf is the separator on its left; that of the first
/// leaf is `low`, where that is given.
#[verifier::opaque]
pub open spec fn snug(t: Tree, low: Option<int>) -> bool
    decreases t,
{
    match t {
        Tree::Leaf { entries, .. } => low matches Some(l) ==> entries.len() > 0 && be_num(
            entries[0].0,
        ) == l,
        Tree::Node { entries, kids, .. } => forall|i: int|
            #![trigger kids[i]]
            0 <= i < kids.len() ==> snug(kids[i], low_of(entries, low, i)),
    }
}

pub open spec fn kids_snug(e: Entries, kids: Seq<Tree>, low: Option<int>) -> bool {
    forall|i: int| 0 <= i < kids.len() ==> snug(#[trigger] kids[i], low_of(e, low, i))
}

pub proof fn lemma_snug_node(id: PageId, e: Entries, kids: Seq<Tree>, low: Option<int>)
    ensures
        snug(Tree::Node { id, entries: e, kids }, low) <==> kids_snug(e, kids, low),
{
    let t = Tree::Node { id, entries: e, kids };
    reveal_with_fuel(snug, 2);
    if snug(t, low) {
        assert forall|i: int| 0 <= i < kids.len() implies snug(
            #[trigger] kids[i],
            low_of(e, low, i),
        ) by {
            assert(snug(t->Node_kids[i], low_of(e, low, i)));
        }
    }
}

pub proof fn lemma_snug_leaf(t: Tree, low: Option<int>)
    requires
        t is Leaf,
    ensures
        snug(t, low) <==> (low matches Some(l) ==> t.entries().len() > 0 && be_num(
            t.entries()[0].0,
        ) == l),
{
    reveal(snug);
}

/// The leaf that key `k` belongs to.
#[verifier::opaque]
pub open spec fn leaf_id(t: Tree, k: int) -> PageId
    decreases t,
{
    match t {
        Tree::Leaf { id, .. } => id,
        Tree::Node { id, entries, kids } => {
            let r = route(key_nums(entries), k);
            if 0 <= r < kids.len() {
                leaf_id(kids[r], k)
            } else {
                id
            }
        },
    }
}

/// Every page on the way to key `k` has room for an entry.
#[verifier::opaque]
pub open spec fn roomy(t: Tree, k: int) -> bool
    decreases t,
{
    &&& has_room(t)
    &&& match t {
        Tree::Leaf { .. } => true,
        Tree::Node { entries, kids, .. } => {
            let r = route(key_nums(entries), k);
            0 <= r < kids.len() && roomy(kids[r], k)
        },
    }
}

/// Each key belongs to the same leaf in both trees, with as much room on the way.
pub open spec fn same_ways(t: Tree, t2: Tree) -> bool {
    forall|k: int| #![trigger leaf_id(t2, k)] #![trigger roomy(t2, k)]
        leaf_id(t2, k) == leaf_id(t, k) && roomy(t2, k) == roomy(t, k)
}

pub proof fn lemma_way_leaf(t: Tree, k: int)
    requires
        t is Leaf,
    ensures
        leaf_id(t, k) == t.id(),
        roomy(t, k) == has_room(t),
{
    reveal(leaf_id);
    reveal(roomy);
}

pub proof fn lemma_way_node(id: PageId, e: Entries, kids: Seq<Tree>, k: int)
    requires
        0 <= route(key_nums(e), k) < kids.len(),
    ensures
        ({
            let t = Tree::Node { id, entries: e, kids };
            let c = kids[route(key_nums(e), k)];
            &&& leaf_id(t, k) == leaf_id(c, k)
            &&& roomy(t, k) == (has_room(t) && roomy(c, k))
        }),
{
    reveal_with_fuel(leaf_id, 2);
    reveal_with_fuel(roomy, 2);
}

/// Only page `id` is another one.
pub open spec fn only_page(
    m: Map<PageId, Seq<u8>>,
    m2: Map<PageId, Seq<u8>>,
    id: PageId,
) -> bool {
    forall|x: PageId|
        x != id ==> (#[trigger] m2.contains_key(x) == m.contains_key(x)) && m2[x] == m[x]
}

/// Pages from `n` on are as before.
pub open spec fn same_from(
    m: Map<PageId, Seq<u8>>,
    m2: Map<PageId, Seq<u8>>,
    n: int,
) -> bool {
    forall|x: PageId|
        x >= n ==> (#[trigger] m2.contains_key(x) == m.contains_key(x)) && m2[x] == m[x]
}

/// The leaves of `t` keep their first keys; the first leaf only where `all` is.
pub open spec fn firsts_kept(
    t: Tree,
    m: Map<PageId, Seq<u8>>,
    m2: Map<PageId, Seq<u8>>,
    all: bool,
) -> bool {
    forall|x: PageId|
        (#[trigger] has_id(t, x)) && is_leaf(m, x) && (all || x != first_leaf(t)) ==> is_leaf(m2, x)
            && first_of(m2, x) == first_of(m, x)
}

/// Where `t` is snug, `t2` is so too and leaves keep their first keys.
#[verifier::opaque]
pub open spec fn snug_kept(
    t: Tree,
    t2: Tree,
    m: Map<PageId, Seq<u8>>,
    m2: Map<PageId, Seq<u8>>,
    kn: int,
) -> bool {
    forall|low: Option<int>| #[trigger]
        snug(t, low) && (low matches Some(l) ==> l <= kn) ==> snug(t2, low) && firsts_kept(
            t,
            m,
            m2,
            low is Some,
        )
}

/// The pages of `t` are pages of `t2`, and so are those that were handed out, from
/// `n0` on and before `n1`.
pub open spec fn ids_grow(t: Tree, t2: Tree, n0: int, n1: int) -> bool {
    &&& forall|x: PageId| #[trigger] has_id(t, x) ==> has_id(t2, x)
    &&& forall|x: PageId| n0 <= x < n1 ==> #[trigger] has_id(t2, x)
}

/// The shape of subtree `t2` that an insert of key `kn` made of `t`.
pub open spec fn insert_shape(
    t: Tree,
    t2: Tree,
    m: Map<PageId, Seq<u8>>,
    m2: Map<PageId, Seq<u8>>,
    kn: int,
    n0: int,
    n1: int,
) -> bool {
    &&& t2.entries().len() >= t.entries().len()
    &&& ids_grow(t, t2, n0, n1)
    &&& filled(t) ==> filled(t2)
    &&& snug_kept(t, t2, m, m2, kn)
    &&& same_from(m, m2, n1)
    &&& roomy(t, kn) ==> {
        &&& n1 == n0
        &&& only_page(m, m2, leaf_id(t, kn))
        &&& t2.id() == t.id()
        &&& lookup(t, kn) is Some ==> same_ways(t, t2)
    }
}

/// The insert into a leaf with room.
pub proof fn lemma_shape_leaf(
    t: Tree,
    t2: Tree,
    m: Map<PageId, Seq<u8>>,
    m2: Map<PageId, Seq<u8>>,
    kn: int,
    n0: int,
)
    requires
        t is Leaf,
        t2 is Leaf,
        t2.id() == t.id(),
        t.id() < n0,
        is_leaf(m, t.id()),
        is_leaf(m2, t.id()),
        m2 == m.insert(t.id(), m2[t.id()]),
        node_of(m[t.id()]).entries == t.entries(),
        node_of(m2[t.id()]).entries == t2.entries(),
        t2.entries().len() >= t.entries().len(),
        lookup(t, kn) is Some ==> t2.entries().len() == t.entries().len(),
        t.entries().len() > 0 && be_num(t.entries()[0].0) <= kn ==> t2.entries()[0].0
            == t.entries()[0].0,
    ensures
        insert_shape(t, t2, m, m2, kn, n0, n0),
{
    lemma_filled_leaf(t2);
    assert(ids_grow(t, t2, n0, n0)) by {
        reveal(has_id);
    }
    assert(snug_kept(t, t2, m, m2, kn)) by {
        reveal(snug_kept);
        assert forall|low: Option<int>| #[trigger]
            snug(t, low) && (low matches Some(l) ==> l <= kn) implies snug(t2, low) && firsts_kept(
            t,
            m,
            m2,
            low is Some,
        ) by {
            lemma_snug_leaf(t, low);
            lemma_snug_leaf(t2, low);
            reveal(has_id);
            reveal(first_leaf);
        }
    }
    lemma_way_leaf(t, kn);
    assert forall|k: int| #![trigger leaf_id(t2, k)] #![trigger roomy(t2, k)] lookup(
        t,
        kn,
    ) is Some implies leaf_id(t2, k) == leaf_id(t, k) && roomy(t2, k) == roomy(t, k) by {
        lemma_way_leaf(t, k);
        lemma_way_leaf(t2, k);
    }
}

/// The insert below child `j`.
#[verifier::spinoff_prover]
pub proof fn lemma_shape_descend(
    id: PageId,
    e: Entries,
    kids: Seq<Tree>,
    j: int,
    c2: Tree,
    m0: Map<PageId, Seq<u8>>,
    m1: Map<PageId, Seq<u8>>,
    kn: int,
    n0: int,
    n1: int,
    own: Set<PageId>,
    lo: int,
    hi: int,
    next: PageId,
    depth: nat,
)
    requires
        ok(Tree::Node { id, entries: e, kids }, m0, own, lo, hi, next, depth),
        distinct(Tree::Node { id, entries: e, kids }),
        own_below(own, n0),
        0 <= j < kids.len(),
        j == route(key_nums(e), kn),
        0 < j ==> be_num(e[j - 1].0) <= kn,
        tree_type(c2) == tree_type(kids[j]),
        insert_shape(kids[j], c2, m0, m1, kn, n0, n1),
        same_outside(m0, m1, kids[j], n0),
        lookup(Tree::Node { id, entries: e, kids }, kn) == lookup(kids[j], kn),
    ensures
        insert_shape(
            Tree::Node { id, entries: e, kids },
            Tree::Node { id, entries: e, kids: spliced_kids(kids, j, 1, seq_one(c2)) },
            m0,
            m1,
            kn,
            n0,
            n1,
        ),
{
    let t = Tree::Node { id, entries: e, kids };
    let c = kids[j];
    let k2 = spliced_kids(kids, j, 1, seq_one(c2));
    let t2 = Tree::Node { id, entries: e, kids: k2 };
    lemma_open_node(id, e, kids);
    lemma_top_page(t, m0, own, lo, hi, next, depth);
    assert(seq_one(c2)[0] == c2);
    assert(k2.len() == kids.len());
    assert forall|i: int| 0 <= i < kids.len() implies #[trigger] k2[i] == (if i == j {
        c2
    } else {
        kids[i]
    }) by {}
    lemma_filled_node(id, e, kids);
    lemma_filled_node(id, e, k2);
    if filled(t) {
        assert(kid_filled(kids[j]));
        assert(all_filled(seq_one(c2)));
        lemma_filled_spliced(kids, j, 1, seq_one(c2));
    }
    assert(snug_kept(t, t2, m0, m1, kn)) by {
        reveal(snug_kept);
        assert forall|low: Option<int>| #[trigger]
            snug(t, low) && (low matches Some(l) ==> l <= kn) implies snug(t2, low) && firsts_kept(
            t,
            m0,
            m1,
            low is Some,
        ) by {
            lemma_snug_node(id, e, kids, low);
            lemma_snug_node(id, e, k2, low);
            let low1 = low_of(e, low, j);
            assert(snug(kids[j], low1));
            assert(snug(c2, low1) && firsts_kept(c, m0, m1, low1 is Some));
            assert forall|i: int| 0 <= i < k2.len() implies snug(
                #[trigger] k2[i],
                low_of(e, low, i),
            ) by {
                if i != j {
                    assert(snug(kids[i], low_of(e, low, i)));
                }
            }
            assert forall|x: PageId|
                (#[trigger] has_id(t, x)) && is_leaf(m0, x) && (low is Some || x != first_leaf(
                    t,
                )) implies is_leaf(m1, x) && first_of(m1, x) == first_of(m0, x) by {
                if has_id(c, x) {
                    if j == 0 {
                        assert(first_leaf(t) == first_leaf(kids[0]));
                    }
                } else {
                    lemma_ids_owned(t, m0, own, lo, hi, next, depth, x);
                    assert(m1.contains_key(x) == m0.contains_key(x));
                }
            }
        }
    }
    assert(ids_grow(t, t2, n0, n1)) by {
        lemma_spliced_ids(id, e, e, kids, j, seq_one(c2));
        assert forall|x: PageId| has_id(c2, x) implies has_id(t2, x) by {
            assert(has_id(seq_one(c2)[0], x));
            assert(forest(seq_one(c2)).contains(x));
            assert(ids_of(t2).contains(x));
        }
        assert forall|x: PageId| #[trigger] has_id(t, x) implies has_id(t2, x) by {
            if !has_id(c, x) {
                assert(ids_of(t).difference(ids_of(c)).contains(x));
                assert(ids_of(t2).contains(x));
            }
        }
    }
    lemma_way_node(id, e, kids, kn);
    if roomy(t, kn) && lookup(t, kn) is Some {
        assert forall|k: int| #![trigger leaf_id(t2, k)] #![trigger roomy(t2, k)] leaf_id(t2, k)
            == leaf_id(t, k) && roomy(t2, k) == roomy(t, k) by {
            lemma_route(key_nums(e), k);
            lemma_way_node(id, e, kids, k);
            lemma_way_node(id, e, k2, k);
            let r = route(key_nums(e), k);
            assert(k2[r] == (if r == j {
                c2
            } else {
                kids[r]
            }));
            assert(leaf_id(c2, k) == leaf_id(c, k) && roomy(c2, k) == roomy(c, k));
        }
    }
}

/// A subtree cut in two at separator `sep` stays snug.
pub open spec fn snug_cut(t: Tree, a: Tree, b: Tree, sep: int) -> bool {
    forall|low: Option<int>| #[trigger] snug(t, low) ==> snug(a, low) && snug(b, Some(sep))
}

/// A full child cut in two, and then the insert below one half.
#[verifier::spinoff_prover]
pub proof fn lemma_shape_after_split(
    id: PageId,
    e: Entries,
    kids: Seq<Tree>,
    i: int,
    sep: (Seq<u8>, Seq<u8>),
    a: Tree,
    b: Tree,
    t2: Tree,
    m0: Map<PageId, Seq<u8>>,
    m1: Map<PageId, Seq<u8>>,
    m2: Map<PageId, Seq<u8>>,
    m3: Map<PageId, Seq<u8>>,
    kn: int,
    n0: int,
    n1: int,
    own: Set<PageId>,
    lo: int,
    hi: int,
    next: PageId,
    depth: nat,
)
    requires
        ok(Tree::Node { id, entries: e, kids }, m0, own, lo, hi, next, depth),
        distinct(Tree::Node { id, entries: e, kids }),
        own_below(own, n0),
        0 <= i < kids.len(),
        i == route(key_nums(e), kn),
        !has_room(kids[i]),
        filled(kids[i]) ==> all_filled(two(a, b)),
        snug_cut(kids[i], a, b, be_num(sep.0)),
        links_cut(ids_of(kids[i]), forest(two(a, b)), m0, m1, b.id()),
        same_outside(m0, m1, kids[i], n0),
        same_from(m0, m1, n0 + 1),
        m2 == m1.insert(id, m2[id]),
        !is_leaf(m2, id),
        forall|x: PageId|
            #[trigger] any_has_id(two(a, b), x) ==> has_id(kids[i], x) || x == b.id(),
        b.id() == n0,
        n0 + 1 <= n1,
        ({
            let t1 = Tree::Node {
                id,
                entries: spliced_entries(e, i, 1, lone(sep)),
                kids: spliced_kids(kids, i, 1, two(a, b)),
            };
            &&& insert_shape(t1, t2, m2, m3, kn, n0 + 1, n1)
            &&& first_leaf(t1) == first_leaf(Tree::Node { id, entries: e, kids })
        }),
    ensures
        insert_shape(Tree::Node { id, entries: e, kids }, t2, m0, m3, kn, n0, n1),
{
    let t = Tree::Node { id, entries: e, kids };
    let c = kids[i];
    let cs = two(a, b);
    let e1 = spliced_entries(e, i, 1, lone(sep));
    let k1 = spliced_kids(kids, i, 1, cs);
    let t1 = Tree::Node { id, entries: e1, kids: k1 };
    lemma_open_node(id, e, kids);
    lemma_top_page(t, m0, own, lo, hi, next, depth);
    assert(cs[0] == a && cs[1] == b);
    assert(e1 =~= e.insert(i, sep));
    assert forall|x: PageId| has_id(t, x) implies has_id(t1, x) by {
        lemma_spliced_ids(id, e, e1, kids, i, cs);
        reveal(links_cut);
        assert(ids_of(t).contains(x));
        if has_id(c, x) {
            assert(ids_of(c).contains(x));
            assert(forest(cs).contains(x));
        }
        assert(ids_of(t1).contains(x));
    }
    assert(ids_grow(t, t2, n0, n1)) by {
        assert forall|x: PageId| #[trigger] has_id(t, x) implies has_id(t2, x) by {
            assert(has_id(t1, x));
        }
        assert forall|x: PageId| n0 <= x < n1 implies #[trigger] has_id(t2, x) by {
            if x == n0 {
                lemma_spliced_ids(id, e, e1, kids, i, cs);
                lemma_has_top(b);
                assert(has_id(cs[1], x));
                assert(forest(cs).contains(x));
                assert(ids_of(t1).contains(x));
                assert(has_id(t1, x));
            }
        }
    }
    lemma_filled_node(id, e, kids);
    lemma_filled_node(id, e1, k1);
    if filled(t) {
        assert(kid_filled(kids[i]));
        lemma_filled_spliced(kids, i, 1, cs);
    }
    assert(!has_id(c, id)) by {
        if has_id(kids[i], id) {
            assert(any_has_id(kids, id));
        }
    }
    assert(firsts_kept(t, m0, m2, true)) by {
        assert forall|x: PageId| (#[trigger] has_id(t, x)) && is_leaf(m0, x) implies is_leaf(m2, x)
            && first_of(m2, x) == first_of(m0, x) by {
            lemma_ids_owned(t, m0, own, lo, hi, next, depth, x);
            if has_id(c, x) {
                reveal(links_cut);
                assert(ids_of(c).contains(x));
            } else {
                assert(m1.contains_key(x) == m0.contains_key(x));
            }
        }
    }
    assert(snug_kept(t, t2, m0, m3, kn)) by {
        reveal(snug_kept);
        assert forall|low: Option<int>| #[trigger]
            snug(t, low) && (low matches Some(l) ==> l <= kn) implies snug(t2, low) && firsts_kept(
            t,
            m0,
            m3,
            low is Some,
        ) by {
            lemma_snug_node(id, e, kids, low);
            lemma_snug_node(id, e1, k1, low);
            assert forall|j: int| 0 <= j < k1.len() implies snug(
                #[trigger] k1[j],
                low_of(e1, low, j),
            ) by {
                if j < i {
                    assert(k1[j] == kids[j]);
                    assert(snug(kids[j], low_of(e, low, j)));
                } else if j == i {
                    assert(k1[j] == a);
                    assert(snug(kids[i], low_of(e, low, i)));
                } else if j == i + 1 {
                    assert(k1[j] == b);
                    assert(e1[i] == sep);
                    assert(snug(kids[i], low_of(e, low, i)));
                } else {
                    assert(k1[j] == kids[j - 1]);
                    assert(e1[j - 1] == e[j - 2]);
                    assert(snug(kids[j - 1], low_of(e, low, j - 1)));
                }
            }
            assert(snug(t1, low));
            assert(firsts_kept(t1, m2, m3, low is Some));
            assert forall|x: PageId|
                (#[trigger] has_id(t, x)) && is_leaf(m0, x) && (low is Some || x != first_leaf(
                    t,
                )) implies is_leaf(m3, x) && first_of(m3, x) == first_of(m0, x) by {
                assert(has_id(t1, x));
            }
        }
    }
    assert forall|x: PageId| x >= n1 implies (#[trigger] m3.contains_key(x) == m0.contains_key(x))
        && m3[x] == m0[x] by {
        assert(m1.contains_key(x) == m0.contains_key(x));
        assert(m3.contains_key(x) == m2.contains_key(x));
        assert(x != id);
    }
    lemma_way_node(id, e, kids, kn);
    assert(!roomy(kids[i], kn)) by {
        reveal(roomy);
    }
    assert(!roomy(t, kn));
    assert(same_from(m0, m3, n1));
    assert(e1.len() == e.len() + 1);
    assert(t2.entries().len() >= t.entries().len());
    assert(filled(t) ==> filled(t1));
    assert(filled(t) ==> filled(t2));
}

/// How many entries a full page holds, and how few.
pub proof fn lemma_key_limits(n: int, page_type: u8)
    requires
        page_type == PAGE_TYPE_LEAF || page_type == PAGE_TYPE_INTERNAL,
        0 <= n,
    ensures
        HEADER_SIZE + n * (OFFSET_ENTRY_SIZE + entry_size_of(page_type)) <= PAGE_SIZE <==> n
            <= max_keys_of(page_type),
        max_keys_of(page_type) == (if page_type == PAGE_TYPE_LEAF {
            15int
        } else {
            628
        }),
        least_keys_of(page_type) == (if page_type == PAGE_TYPE_LEAF {
            7int
        } else {
            313
        }),
{
    let u = OFFSET_ENTRY_SIZE + entry_size_of(page_type);
    if page_type == PAGE_TYPE_LEAF {
        assert(u == 1078);
        assert(16336int / u == 15 && (n * u <= 16336 <==> n <= 15)) by (nonlinear_arith)
            requires
                u == 1078,
        ;
    } else {
        assert(u == 26);
        assert(16336int / u == 628 && (n * u <= 16336 <==> n <= 628)) by (nonlinear_arith)
            requires
                u == 26,
        ;
    }
}

/// A leaf cut in two in the middle.
pub proof fn lemma_shape_cut_leaf(t: Tree, a: Tree, b: Tree, p: int)
    requires
        t is Leaf,
        a is Leaf,
        b is Leaf,
        t.entries().len() >= 2,
        p == t.entries().len() as int / 2,
        a.entries() == t.entries().take(p),
        b.entries() == t.entries().skip(p),
    ensures
        !has_room(t) ==> all_filled(two(a, b)),
        snug_cut(t, a, b, be_num(t.entries()[p].0)),
{
    let n = t.entries().len() as int;
    lemma_key_limits(n + 1, PAGE_TYPE_LEAF);
    lemma_filled_leaf(a);
    lemma_filled_leaf(b);
    assert(two(a, b)[0] == a && two(a, b)[1] == b);
    assert forall|low: Option<int>| #[trigger] snug(t, low) implies snug(a, low) && snug(
        b,
        Some(be_num(t.entries()[p].0)),
    ) by {
        lemma_snug_leaf(t, low);
        lemma_snug_leaf(a, low);
        lemma_snug_leaf(b, Some(be_num(t.entries()[p].0)));
    }
}

/// An internal page cut in two in the middle.
pub proof fn lemma_shape_cut_node(
    id: PageId,
    e: Entries,
    kids: Seq<Tree>,
    p: int,
    a: Tree,
    b: Tree,
)
    requires
        kids.len() == e.len() + 1,
        e.len() >= 2,
        p == e.len() as int / 2,
        a == (Tree::Node { id, entries: e.take(p), kids: kids.take(p + 1) }),
        b == (Tree::Node { id: b.id(), entries: e.skip(p + 1), kids: kids.skip(p + 1) }),
    ensures
        filled(Tree::Node { id, entries: e, kids }) && !has_room(
            Tree::Node { id, entries: e, kids },
        ) ==> all_filled(two(a, b)),
        snug_cut(Tree::Node { id, entries: e, kids }, a, b, be_num(e[p].0)),
{
    let t = Tree::Node { id, entries: e, kids };
    let ka = kids.take(p + 1);
    let kb = kids.skip(p + 1);
    let ea = e.take(p);
    let eb = e.skip(p + 1);
    lemma_key_limits(e.len() as int + 1, PAGE_TYPE_INTERNAL);
    lemma_filled_node(id, e, kids);
    lemma_filled_node(id, ea, ka);
    lemma_filled_node(b.id(), eb, kb);
    assert(two(a, b)[0] == a && two(a, b)[1] == b);
    if filled(t) {
        assert forall|i: int| 0 <= i < ka.len() implies kid_filled(#[trigger] ka[i]) by {
            assert(ka[i] == kids[i]);
        }
        assert forall|i: int| 0 <= i < kb.len() implies kid_filled(#[trigger] kb[i]) by {
            assert(kb[i] == kids[i + p + 1]);
        }
    }
    assert forall|low: Option<int>| #[trigger] snug(t, low) implies snug(a, low) && snug(
        b,
        Some(be_num(e[p].0)),
    ) by {
        let s = Some(be_num(e[p].0));
        lemma_snug_node(id, e, kids, low);
        lemma_snug_node(id, ea, ka, low);
        lemma_snug_node(b.id(), eb, kb, s);
        assert forall|i: int| 0 <= i < ka.len() implies snug(
            #[trigger] ka[i],
            low_of(ea, low, i),
        ) by {
            assert(ka[i] == kids[i]);
            assert(snug(kids[i], low_of(e, low, i)));
        }
        assert forall|i: int| 0 <= i < kb.len() implies snug(#[trigger] kb[i], low_of(eb, s, i)) by {
            assert(kb[i] == kids[i + p + 1]);
            assert(snug(kids[i + p + 1], low_of(e, low, i + p + 1)));
        }
    }
}

/// Two neighbours replaced by other pages that are full enough.
pub proof fn lemma_fill_pair(
    id: PageId,
    e: Entries,
    e2: Entries,
    kids: Seq<Tree>,
    i: int,
    cs: Seq<Tree>,
)
    requires
        0 <= i,
        i + 2 <= kids.len(),
    ensures
        filled(Tree::Node { id, entries: e, kids }) && all_filled(cs) ==> filled(
            Tree::Node { id, entries: e2, kids: spliced_kids(kids, i, 2, cs) },
        ),
{
    lemma_filled_node(id, e, kids);
    lemma_filled_node(id, e2, spliced_kids(kids, i, 2, cs));
    if all_filled(kids) && all_filled(cs) {
        lemma_filled_spliced(kids, i, 2, cs);
    }
}

/// The children of two neighbours, shared out between them anew.
pub proof fn lemma_fill_shared(l: Tree, r: Tree, a: Tree, b: Tree, p: int)
    requires
        l is Node,
        r is Node,
        a is Node,
        b is Node,
        0 <= p <= l->Node_kids.len() + r->Node_kids.len(),
        a->Node_kids == (l->Node_kids + r->Node_kids).take(p),
        b->Node_kids == (l->Node_kids + r->Node_kids).skip(p),
        filled(l),
        filled(r),
    ensures
        filled(a),
        filled(b),
{
    let lk = l->Node_kids;
    let rk = r->Node_kids;
    let ak = a->Node_kids;
    let bk = b->Node_kids;
    lemma_filled_node(l.id(), l.entries(), lk);
    lemma_filled_node(r.id(), r.entries(), rk);
    lemma_filled_node(a.id(), a.entries(), ak);
    lemma_filled_node(b.id(), b.entries(), bk);
    assert(l == Tree::Node { id: l.id(), entries: l.entries(), kids: lk });
    assert(r == Tree::Node { id: r.id(), entries: r.entries(), kids: rk });
    assert(a == Tree::Node { id: a.id(), entries: a.entries(), kids: ak });
    assert(b == Tree::Node { id: b.id(), entries: b.entries(), kids: bk });
    assert forall|i: int| 0 <= i < ak.len() implies kid_filled(#[trigger] ak[i]) by {
        if i < lk.len() {
            assert(ak[i] == lk[i]);
        } else {
            assert(ak[i] == rk[i - lk.len()]);
        }
    }
    assert forall|i: int| 0 <= i < bk.len() implies kid_filled(#[trigger] bk[i]) by {
        if i + p < lk.len() {
            assert(bk[i] == lk[i + p]);
        } else {
            assert(bk[i] == rk[i + p - lk.len()]);
        }
    }
}

/// The children of two neighbours under one page.
pub proof fn lemma_fill_merged(l: Tree, r: Tree, a: Tree)
    requires
        l is Node,
        r is Node,
        a is Node,
        a->Node_kids == l->Node_kids + r->Node_kids,
        filled(l),
        filled(r),
    ensures
        filled(a),
{
    let n = (l->Node_kids + r->Node_kids).len() as int;
    let b = Tree::Node { id: 0, entries: Seq::empty(), kids: Seq::empty() };
    assert((l->Node_kids + r->Node_kids).take(n) =~= a->Node_kids);
    assert((l->Node_kids + r->Node_kids).skip(n) =~= b->Node_kids);
    lemma_fill_shared(l, r, a, b, n);
}

} // verus!
