//! What an insert does to the links between leaves.
use vstd::prelude::*;

use super::chain::first_of;
use super::node_page::{node_of, NodeModel};
use super::split::{lemma_has_node, lemma_open_node, two};
use super::tree_lemmas::spliced_kids;
use super::tree_model::{any_has_id, distinct, has_id, Entries, Tree};
use super::validate::is_leaf;
use super::validity::ids_of;
use crate::common::PageId;
use crate::key_order::be_num;

verus! {

/// Leaf `x` of `m2` has the high key and the successor of leaf `y` of `m`.
pub open spec fn same_link(
    m: Map<PageId, Seq<u8>>,
    y: PageId,
    m2: Map<PageId, Seq<u8>>,
    x: PageId,
) -> bool {
    &&& node_of(m2[x]).high_key == node_of(m[y]).high_key
    &&& node_of(m2[x]).next_leaf == node_of(m[y]).next_leaf
}

/// Leaf `x` has the link of one of the leaves `ids` of `m`.
pub open spec fn old_link(
    ids: Set<PageId>,
    m: Map<PageId, Seq<u8>>,
    m2: Map<PageId, Seq<u8>>,
    x: PageId,
) -> bool {
    exists|y: PageId| #[trigger] ids.contains(y) && is_leaf(m, y) && same_link(m, y, m2, x)
}

/// Leaf `x` links to leaf `z`, and its high key is the first key of `z`.
pub open spec fn new_link(
    ids: Set<PageId>,
    m: Map<PageId, Seq<u8>>,
    x: PageId,
    z: PageId,
) -> bool {
    &&& ids.contains(z)
    &&& is_leaf(m, z)
    &&& node_of(m[x]).next_leaf == Some(z)
    &&& node_of(m[x]).high_key == first_of(m, z)
    &&& first_of(m, z) is Some
}

/// The pages `ids` of `m` became the pages `ids2` of `m2` when one of them was
/// split, page `z` being the new one: leaves keep their first keys, and a link
/// is as before or leads to `z`.
#[verifier::opaque]
pub open spec fn links_cut(
    ids: Set<PageId>,
    ids2: Set<PageId>,
    m: Map<PageId, Seq<u8>>,
    m2: Map<PageId, Seq<u8>>,
    z: PageId,
) -> bool {
    &&& forall|x: PageId| #[trigger] ids.contains(x) ==> ids2.contains(x)
    &&& forall|x: PageId|
        (#[trigger] ids.contains(x)) && is_leaf(m, x) ==> is_leaf(m2, x) && first_of(m2, x)
            == first_of(m, x)
    &&& forall|x: PageId|
        (#[trigger] ids2.contains(x)) && is_leaf(m2, x) ==> new_link(ids2, m2, x, z) || old_link(
            ids,
            m,
            m2,
            x,
        )
}

/// The first key of leaf `x` is as before, or it is `key` and was above it.
pub open spec fn first_lowered(
    m: Map<PageId, Seq<u8>>,
    m2: Map<PageId, Seq<u8>>,
    x: PageId,
    key: Seq<u8>,
) -> bool {
    first_of(m2, x) == first_of(m, x) || (first_of(m2, x) == Some(key) && (first_of(
        m,
        x,
    ) matches Some(f) ==> be_num(key) < be_num(f)))
}

/// The pages `ids` of `m` became the pages `ids2` of `m2` when `key` was put
/// in: no first key changed but to `key`, and a link is as before or its high
/// key is the first key of its successor.
#[verifier::opaque]
pub open spec fn links_kept(
    ids: Set<PageId>,
    ids2: Set<PageId>,
    m: Map<PageId, Seq<u8>>,
    m2: Map<PageId, Seq<u8>>,
    key: Seq<u8>,
) -> bool {
    &&& forall|x: PageId| #[trigger] ids.contains(x) ==> ids2.contains(x)
    &&& forall|x: PageId|
        (#[trigger] ids.contains(x)) && is_leaf(m, x) ==> is_leaf(m2, x) && first_lowered(
            m,
            m2,
            x,
            key,
        )
    &&& forall|x: PageId|
        (#[trigger] ids2.contains(x)) && is_leaf(m2, x) ==> old_link(ids, m, m2, x) || exists|
            z: PageId,
        | #[trigger]
            new_link(ids2, m2, x, z)
}

/// The pages of the subtrees.
pub open spec fn forest(kids: Seq<Tree>) -> Set<PageId> {
    Set::new(|x: PageId| any_has_id(kids, x))
}

/// One child replaced by others.
pub proof fn lemma_spliced_ids(
    id: PageId,
    e: Entries,
    e2: Entries,
    kids: Seq<Tree>,
    i: int,
    cs: Seq<Tree>,
)
    requires
        distinct(Tree::Node { id, entries: e, kids }),
        0 <= i < kids.len(),
    ensures
        ids_of(Tree::Node { id, entries: e2, kids: spliced_kids(kids, i, 1, cs) }) == forest(
            cs,
        ).union(ids_of(Tree::Node { id, entries: e, kids }).difference(ids_of(kids[i]))),
{
    let t = Tree::Node { id, entries: e, kids };
    let k2 = spliced_kids(kids, i, 1, cs);
    let t2 = Tree::Node { id, entries: e2, kids: k2 };
    let want = forest(cs).union(ids_of(t).difference(ids_of(kids[i])));
    lemma_open_node(id, e, kids);
    assert forall|x: PageId| ids_of(t2).contains(x) <==> want.contains(x) by {
        lemma_has_node(id, e, kids, x);
        lemma_has_node(id, e2, k2, x);
        if ids_of(t2).contains(x) {
            if x == id {
                assert(!has_id(kids[i], x));
            } else {
                let j = choose|j: int| 0 <= j < k2.len() && #[trigger] has_id(k2[j], x);
                if j < i {
                    assert(k2[j] == kids[j]);
                    assert(has_id(kids[j], x) && !has_id(kids[i], x));
                } else if j < i + cs.len() {
                    assert(k2[j] == cs[j - i]);
                    assert(has_id(cs[j - i], x));
                } else {
                    let l = j - cs.len() + 1;
                    assert(k2[j] == kids[l]);
                    assert(has_id(kids[l], x));
                    assert(!has_id(kids[i], x)) by {
                        if has_id(kids[i], x) {
                            assert(!has_id(kids[l], x));
                        }
                    }
                }
            }
        }
        if want.contains(x) && x != id {
            if any_has_id(cs, x) {
                let j = choose|j: int| 0 <= j < cs.len() && #[trigger] has_id(cs[j], x);
                assert(k2[i + j] == cs[j]);
                assert(has_id(k2[i + j], x));
            } else {
                let j = choose|j: int| 0 <= j < kids.len() && #[trigger] has_id(kids[j], x);
                if j < i {
                    assert(k2[j] == kids[j]);
                    assert(has_id(k2[j], x));
                } else {
                    let l = j + cs.len() - 1;
                    assert(k2[l] == kids[j]);
                    assert(has_id(k2[l], x));
                }
            }
        }
    }
    assert(ids_of(t2) =~= want);
}

/// An insert into a leaf with room.
pub proof fn lemma_links_leaf(
    t: Tree,
    t2: Tree,
    m: Map<PageId, Seq<u8>>,
    m2: Map<PageId, Seq<u8>>,
    key: Seq<u8>,
)
    requires
        t is Leaf,
        t2 is Leaf,
        t2.id() == t.id(),
        is_leaf(m, t.id()),
        node_of(m2[t.id()]) == (NodeModel {
            entries: node_of(m2[t.id()]).entries,
            ..node_of(m[t.id()])
        }),
        first_lowered(m, m2, t.id(), key),
    ensures
        links_kept(ids_of(t), ids_of(t2), m, m2, key),
{
    reveal(has_id);
    reveal(links_kept);
    let id = t.id();
    assert(ids_of(t).contains(id));
    assert(same_link(m, id, m2, id));
}

/// Pages that stay do not matter to an insert.
pub proof fn lemma_kept_beside(
    a: Set<PageId>,
    a2: Set<PageId>,
    b: Set<PageId>,
    m: Map<PageId, Seq<u8>>,
    m2: Map<PageId, Seq<u8>>,
    key: Seq<u8>,
)
    requires
        links_kept(a, a2, m, m2, key),
        forall|x: PageId| #[trigger] b.contains(x) ==> m2[x] == m[x],
    ensures
        links_kept(a.union(b), a2.union(b), m, m2, key),
{
    reveal(links_kept);
    let all = a.union(b);
    let all2 = a2.union(b);
    assert forall|x: PageId| (#[trigger] all2.contains(x)) && is_leaf(m2, x) implies old_link(
        all,
        m,
        m2,
        x,
    ) || exists|z: PageId| #[trigger] new_link(all2, m2, x, z) by {
        if b.contains(x) {
            assert(all.contains(x) && same_link(m, x, m2, x));
        } else if old_link(a, m, m2, x) {
            let y = choose|y: PageId| #[trigger]
                a.contains(y) && is_leaf(m, y) && same_link(m, y, m2, x);
            assert(all.contains(y));
        } else {
            assert(a2.contains(x));
            let z = choose|z: PageId| #[trigger] new_link(a2, m2, x, z);
            assert(new_link(all2, m2, x, z));
        }
    }
}

/// A split below an internal page `id`, which is then written.
pub proof fn lemma_cut_beside(
    a: Set<PageId>,
    a2: Set<PageId>,
    b: Set<PageId>,
    id: PageId,
    m: Map<PageId, Seq<u8>>,
    m1: Map<PageId, Seq<u8>>,
    m2: Map<PageId, Seq<u8>>,
    z: PageId,
)
    requires
        links_cut(a, a2, m, m1, z),
        forall|x: PageId| #[trigger] a2.contains(x) ==> m2[x] == m1[x],
        forall|x: PageId| #[trigger] b.contains(x) && x != id ==> m2[x] == m[x],
        b.contains(id) ==> !is_leaf(m, id),
        b.contains(id) ==> !is_leaf(m2, id),
    ensures
        links_cut(a.union(b), a2.union(b), m, m2, z),
{
    reveal(links_cut);
    let all = a.union(b);
    let all2 = a2.union(b);
    assert forall|x: PageId| (#[trigger] all.contains(x)) && is_leaf(m, x) implies is_leaf(m2, x)
        && first_of(m2, x) == first_of(m, x) by {
        if a.contains(x) {
            assert(a2.contains(x));
        }
    }
    assert forall|x: PageId| (#[trigger] all2.contains(x)) && is_leaf(m2, x) implies new_link(
        all2,
        m2,
        x,
        z,
    ) || old_link(all, m, m2, x) by {
        if a2.contains(x) {
            if new_link(a2, m1, x, z) {
                assert(m2[z] == m1[z]);
                assert(new_link(all2, m2, x, z));
            } else {
                assert(old_link(a, m, m1, x));
                let y = choose|y: PageId| #[trigger]
                    a.contains(y) && is_leaf(m, y) && same_link(m, y, m1, x);
                assert(all.contains(y) && same_link(m, y, m2, x));
            }
        } else {
            assert(all.contains(x) && same_link(m, x, m2, x));
        }
    }
}

/// A split and then an insert that leaves the first key of the new leaf.
pub proof fn lemma_cut_then_kept(
    a: Set<PageId>,
    b: Set<PageId>,
    c: Set<PageId>,
    m: Map<PageId, Seq<u8>>,
    m1: Map<PageId, Seq<u8>>,
    m2: Map<PageId, Seq<u8>>,
    z: PageId,
    key: Seq<u8>,
)
    requires
        links_cut(a, b, m, m1, z),
        links_kept(b, c, m1, m2, key),
        b.contains(z) && is_leaf(m1, z) ==> first_of(m2, z) == first_of(m1, z),
    ensures
        links_kept(a, c, m, m2, key),
{
    reveal(links_cut);
    reveal(links_kept);
    assert forall|x: PageId| (#[trigger] a.contains(x)) && is_leaf(m, x) implies is_leaf(m2, x)
        && first_lowered(m, m2, x, key) by {
        assert(b.contains(x));
    }
    assert forall|x: PageId| #[trigger] a.contains(x) implies c.contains(x) by {
        assert(b.contains(x));
    }
    assert forall|x: PageId| (#[trigger] c.contains(x)) && is_leaf(m2, x) implies old_link(
        a,
        m,
        m2,
        x,
    ) || exists|z: PageId| #[trigger] new_link(c, m2, x, z) by {
        if old_link(b, m1, m2, x) {
            let y = choose|y: PageId| #[trigger]
                b.contains(y) && is_leaf(m1, y) && same_link(m1, y, m2, x);
            if new_link(b, m1, y, z) {
                assert(c.contains(z));
                assert(new_link(c, m2, x, z));
            } else {
                assert(old_link(a, m, m1, y));
                let w = choose|w: PageId| #[trigger]
                    a.contains(w) && is_leaf(m, w) && same_link(m, w, m1, y);
                assert(a.contains(w) && same_link(m, w, m2, x));
            }
        }
    }
}

/// A leaf cut in two.
pub proof fn lemma_links_cut_leaf(
    t: Tree,
    a: Tree,
    b: Tree,
    m: Map<PageId, Seq<u8>>,
    m2: Map<PageId, Seq<u8>>,
)
    requires
        t is Leaf,
        a is Leaf,
        b is Leaf,
        a.id() == t.id(),
        is_leaf(m, t.id()),
        is_leaf(m2, t.id()),
        is_leaf(m2, b.id()),
        first_of(m2, t.id()) == first_of(m, t.id()),
        node_of(m2[t.id()]).next_leaf == Some(b.id()),
        node_of(m2[t.id()]).high_key == first_of(m2, b.id()),
        first_of(m2, b.id()) is Some,
        same_link(m, t.id(), m2, b.id()),
    ensures
        links_cut(ids_of(t), forest(two(a, b)), m, m2, b.id()),
{
    reveal(has_id);
    reveal(links_cut);
    let ids2 = forest(two(a, b));
    let id = t.id();
    let z = b.id();
    assert(two(a, b)[0] == a && two(a, b)[1] == b);
    assert(has_id(two(a, b)[0], id));
    assert(has_id(two(a, b)[1], z));
    assert(ids_of(t).contains(id));
    assert(new_link(ids2, m2, id, z));
    assert(old_link(ids_of(t), m, m2, z));
    assert forall|x: PageId| #[trigger] ids2.contains(x) implies x == id || x == z by {
        let j = choose|j: int| 0 <= j < 2 && #[trigger] has_id(two(a, b)[j], x);
    }
}

/// An internal page cut in two at child `p`.
pub proof fn lemma_links_cut_node(
    id: PageId,
    e: Entries,
    kids: Seq<Tree>,
    p: int,
    a: Tree,
    b: Tree,
    m: Map<PageId, Seq<u8>>,
    m2: Map<PageId, Seq<u8>>,
)
    requires
        0 <= p <= kids.len(),
        a is Node,
        b is Node,
        a.id() == id,
        a->Node_kids == kids.take(p),
        b->Node_kids == kids.skip(p),
        !is_leaf(m, id),
        !is_leaf(m2, id),
        !is_leaf(m2, b.id()),
        forall|x: PageId| #[trigger] any_has_id(kids, x) ==> m2[x] == m[x],
    ensures
        links_cut(ids_of(Tree::Node { id, entries: e, kids }), forest(two(a, b)), m, m2, b.id()),
{
    reveal(links_cut);
    let t = Tree::Node { id, entries: e, kids };
    let ids = ids_of(t);
    let ids2 = forest(two(a, b));
    let z = b.id();
    let ka = kids.take(p);
    let kb = kids.skip(p);
    assert(two(a, b)[0] == a && two(a, b)[1] == b);
    assert forall|x: PageId| #[trigger] ids.contains(x) implies ids2.contains(x) by {
        lemma_has_node(id, e, kids, x);
        lemma_has_node(id, a.entries(), ka, x);
        lemma_has_node(z, b.entries(), kb, x);
        assert(a == Tree::Node { id, entries: a.entries(), kids: ka });
        assert(b == Tree::Node { id: z, entries: b.entries(), kids: kb });
        if x == id {
            assert(has_id(two(a, b)[0], x));
        } else {
            let j = choose|j: int| 0 <= j < kids.len() && #[trigger] has_id(kids[j], x);
            if j < p {
                assert(has_id(ka[j], x));
                assert(has_id(two(a, b)[0], x));
            } else {
                assert(has_id(kb[j - p], x));
                assert(has_id(two(a, b)[1], x));
            }
        }
    }
    assert forall|x: PageId| (#[trigger] ids.contains(x)) && x != id implies m2[x] == m[x] by {
        lemma_has_node(id, e, kids, x);
        assert(any_has_id(kids, x));
    }
    assert forall|x: PageId| (#[trigger] ids2.contains(x)) && is_leaf(m2, x) implies old_link(
        ids,
        m,
        m2,
        x,
    ) by {
        lemma_has_node(id, e, kids, x);
        lemma_has_node(id, a.entries(), ka, x);
        lemma_has_node(z, b.entries(), kb, x);
        assert(a == Tree::Node { id, entries: a.entries(), kids: ka });
        assert(b == Tree::Node { id: z, entries: b.entries(), kids: kb });
        let j = choose|j: int| 0 <= j < 2 && #[trigger] has_id(two(a, b)[j], x);
        if j == 0 {
            let l = choose|l: int| 0 <= l < ka.len() && #[trigger] has_id(ka[l], x);
            assert(has_id(kids[l], x));
        } else {
            let l = choose|l: int| 0 <= l < kb.len() && #[trigger] has_id(kb[l], x);
            assert(has_id(kids[l + p], x));
        }
        assert(ids.contains(x) && same_link(m, x, m2, x));
    }
}

/// Where nothing is cut, the links are as before.
pub proof fn lemma_cut_nothing(ids: Set<PageId>, m: Map<PageId, Seq<u8>>, z: PageId)
    ensures
        links_cut(ids, ids, m, m, z),
{
    reveal(links_cut);
    assert forall|x: PageId| (#[trigger] ids.contains(x)) && is_leaf(m, x) implies old_link(
        ids,
        m,
        m,
        x,
    ) by {
        assert(same_link(m, x, m, x));
    }
}

/// A page more that is no leaf.
pub proof fn lemma_cut_more(
    ids: Set<PageId>,
    ids2: Set<PageId>,
    ids3: Set<PageId>,
    m: Map<PageId, Seq<u8>>,
    m2: Map<PageId, Seq<u8>>,
    z: PageId,
)
    requires
        links_cut(ids, ids2, m, m2, z),
        forall|x: PageId| #[trigger] ids2.contains(x) ==> ids3.contains(x),
        forall|x: PageId| (#[trigger] ids3.contains(x)) && is_leaf(m2, x) ==> ids2.contains(x),
    ensures
        links_cut(ids, ids3, m, m2, z),
{
    reveal(links_cut);
    assert forall|x: PageId| #[trigger] ids.contains(x) implies ids3.contains(x) by {
        assert(ids2.contains(x));
    }
    assert forall|x: PageId| (#[trigger] ids3.contains(x)) && is_leaf(m2, x) implies new_link(
        ids3,
        m2,
        x,
        z,
    ) || old_link(ids, m, m2, x) by {
        assert(ids2.contains(x));
    }
}

} // verus!
