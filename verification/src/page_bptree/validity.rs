//! When a tree that the operations keep passes the check of its pages.
use vstd::prelude::*;

use super::chain::{fresh_until, MAX_SCAN_LEAF_HOPS};
use super::insert::lemma_kid;
use super::links::{links_kept, new_link, old_link, same_link};
use super::node_page::{ascending, canonical, count_of, entry_inside, key_nums,
    lemma_canonical_bounds, node_of};
use super::shape::{firsts_kept, kid_filled, lemma_filled_node, lemma_key_limits, snug, well_shaped};
use super::split::{lemma_leaf_tree, lemma_open_node, lemma_top_page, tree_type};
use super::tree::{rows_of, tree_at};
use super::tree_model::{any_has_id, bound, distinct, first_leaf, has_id, keys_ok, leaf_get,
    lemma_bounds, lemma_has_first, lemma_has_top, lemma_ids_owned, lemma_next_of,
    lemma_route_from_bounds, link_at, lookup, next_of, ok, route, seps_ok, Entries, Tree};
use super::validate::{chain_covers, chain_ends, chain_fault, chain_page, chain_sound_until, chained,
    child_frame, child_frames, ends_above, explored, first_leaf_visit, is_leaf, is_valid, last_key,
    leaves_of, lemma_readable, link_fault, listed, page_fault, sound_until, starts_below, unordered,
    valid_tree, visit, visit_fault, visited, waiting, Frame};
use vstd::arithmetic::power2::{lemma2_to64, lemma2_to64_rest, lemma_pow2_strictly_increases,
    lemma_pow2_unfold, pow2};
use crate::common::PageId;
use crate::key_order::{be_num, is_key, key_top, lemma_lex_is_num_order, lex_lt};

verus! {

/// The limits of a frame leave room for the keys in `[lo, hi)`.
pub open spec fn frame_fits(f: Frame, lo: int, hi: int) -> bool {
    &&& f.lower matches Some(b) ==> is_key(b) && be_num(b) <= lo
    &&& f.upper matches Some(b) ==> is_key(b) && hi <= be_num(b)
}

/// Every entry of a well laid out page is listed.
proof fn lemma_all_listed(s: Seq<u8>)
    requires
        canonical(s),
    ensures
        listed(s) == node_of(s).entries,
{
    assert forall|j: int| 0 <= j < count_of(s) implies #[trigger] entry_inside(s, j) by {
        lemma_canonical_bounds(s, j);
    }
    lemma_readable(s, 0, count_of(s));
    assert(listed(s) =~= node_of(s).entries);
}

/// Ascending keys inside the limits have no fault.
proof fn lemma_keys_sound(e: Entries, lo: int, hi: int, f: Frame)
    requires
        keys_ok(e, lo, hi),
        frame_fits(f, lo, hi),
    ensures
        !unordered(e),
        !starts_below(e, f.lower),
        !ends_above(e, f.upper),
{
    if unordered(e) {
        let i = choose|i: int| 0 < i < e.len() && !lex_lt(e[i - 1].0, (#[trigger] e[i]).0);
        assert(key_nums(e)[i - 1] < key_nums(e)[i]);
        assert(is_key(e[i - 1].0) && is_key(e[i].0));
        lemma_lex_is_num_order(e[i - 1].0, e[i].0);
    }
    if starts_below(e, f.lower) {
        assert(is_key(e[0].0));
        lemma_lex_is_num_order(e[0].0, f.lower->0);
    }
    if ends_above(e, f.upper) {
        let i = e.len() - 1;
        assert(is_key(e[i].0) && be_num(e[i].0) < hi);
        lemma_lex_is_num_order(e.last().0, f.upper->0);
    }
}

/// The frames of the children of an internal page are those of `kids`.
pub open spec fn kid_frames(
    cf: Seq<Frame>,
    e: Entries,
    kids: Seq<Tree>,
    lo: int,
    hi: int,
) -> bool {
    &&& cf.len() == kids.len()
    &&& forall|i: int|
        0 <= i < cf.len() ==> (#[trigger] cf[i]).id == kids[i].id() && frame_fits(
            cf[i],
            bound(e, lo, hi, i),
            bound(e, lo, hi, i + 1),
        )
}

/// The page at the top of a subtree has no fault, and its children are next.
proof fn lemma_sound_page(
    t: Tree,
    m: Map<PageId, Seq<u8>>,
    own: Set<PageId>,
    lo: int,
    hi: int,
    next: PageId,
    depth: nat,
    f: Frame,
)
    requires
        ok(t, m, own, lo, hi, next, depth),
        f.id == t.id(),
        frame_fits(f, lo, hi),
    ensures
        page_fault(m, f) is None,
        is_leaf(m, f.id) == (t is Leaf),
        t is Leaf ==> child_frames(m, f).len() == 0,
        t matches Tree::Node { entries, kids, .. } ==> kid_frames(
            child_frames(m, f),
            entries,
            kids,
            lo,
            hi,
        ),
{
    reveal(ok);
    lemma_top_page(t, m, own, lo, hi, next, depth);
    lemma_all_listed(m[t.id()]);
    let h = node_of(m[t.id()]);
    match t {
        Tree::Leaf { id, entries } => {
            lemma_keys_sound(entries, lo, hi, f);
            if h.high_key is Some {
                lemma_keys_sound(
                    entries,
                    lo,
                    hi,
                    Frame { id, lower: None, upper: h.high_key },
                );
            }
        },
        Tree::Node { id, entries, kids } => {
            assert(keys_ok(entries, lo, hi));
            lemma_keys_sound(entries, lo, hi, f);
            lemma_top_page(
                kids[0],
                m,
                own,
                bound(entries, lo, hi, 0),
                bound(entries, lo, hi, 1),
                next_of(kids, next, 0),
                (depth - 1) as nat,
            );
            let cf = child_frames(m, f);
            assert forall|i: int| 0 <= i < cf.len() implies (#[trigger] cf[i]).id == kids[i].id()
                && frame_fits(cf[i], bound(entries, lo, hi, i), bound(entries, lo, hi, i + 1)) by {
                assert(cf[i] == child_frame(h.left_child, entries, f, i));
                if i > 0 {
                    assert(link_at(entries, kids, i - 1)) by {
                        assert(seps_ok(entries, kids, lo, hi));
                    }
                    reveal(link_at);
                    assert(is_key(entries[i - 1].0));
                }
                if i < entries.len() {
                    assert(is_key(entries[i].0));
                }
            }
        },
    }
}

/// The pages of a subtree.
pub open spec fn ids_of(t: Tree) -> Set<PageId> {
    Set::new(|x: PageId| has_id(t, x))
}

/// The pages of the subtrees from `i` on.
pub open spec fn ids_from(kids: Seq<Tree>, i: int) -> Set<PageId> {
    Set::new(
        |x: PageId| exists|k: int| i <= k < kids.len() && 0 <= k && #[trigger] has_id(kids[k], x),
    )
}

/// Page `x` is visited from visit `a` on and before visit `b`.
pub open spec fn visited_in(
    m: Map<PageId, Seq<u8>>,
    root: PageId,
    a: int,
    b: int,
    x: PageId,
) -> bool {
    exists|j: int| a <= j < b && (#[trigger] visit(m, root, j)).id == x
}

/// The visits from `a` on and before `b` are one of each page in `ids`, and
/// find nothing wrong.
pub open spec fn walked(
    ids: Set<PageId>,
    m: Map<PageId, Seq<u8>>,
    root: PageId,
    a: int,
    b: int,
) -> bool {
    &&& 0 <= a <= b
    &&& forall|j: int| a <= j < b ==> (#[trigger] waiting(m, root, j)).len() > 0
    &&& forall|j: int|
        a <= j < b ==> ids.contains((#[trigger] visit(m, root, j)).id) && page_fault(
            m,
            visit(m, root, j),
        ) is None
    &&& forall|x: PageId| #[trigger] ids.contains(x) ==> visited_in(m, root, a, b, x)
    &&& forall|i: int, j: int|
        a <= i < j < b ==> (#[trigger] visit(m, root, i)).id != (#[trigger] visit(m, root, j)).id
}

/// Visit `i`, from visit `a` on and before visit `b`, is the first of a leaf,
/// which is page `x`.
pub open spec fn first_leaf_in(
    m: Map<PageId, Seq<u8>>,
    root: PageId,
    a: int,
    b: int,
    i: int,
    x: PageId,
) -> bool {
    &&& a <= i < b
    &&& visit(m, root, i).id == x
    &&& is_leaf(m, x)
    &&& forall|j: int| a <= j < i ==> !is_leaf(m, (#[trigger] visit(m, root, j)).id)
}

proof fn lemma_walked_join(
    ids: Set<PageId>,
    ids2: Set<PageId>,
    m: Map<PageId, Seq<u8>>,
    root: PageId,
    a: int,
    b: int,
    c: int,
)
    requires
        walked(ids, m, root, a, b),
        walked(ids2, m, root, b, c),
        forall|x: PageId| #[trigger] ids.contains(x) ==> !ids2.contains(x),
    ensures
        walked(ids.union(ids2), m, root, a, c),
{
    let all = ids.union(ids2);
    assert forall|x: PageId| #[trigger] all.contains(x) implies visited_in(m, root, a, c, x) by {
        if ids.contains(x) {
            let j = choose|j: int| a <= j < b && (#[trigger] visit(m, root, j)).id == x;
            assert(visit(m, root, j).id == x);
        } else {
            assert(ids2.contains(x));
            let j = choose|j: int| b <= j < c && (#[trigger] visit(m, root, j)).id == x;
            assert(visit(m, root, j).id == x);
        }
    }
    assert forall|i: int, j: int| a <= i < j < c implies (#[trigger] visit(m, root, i)).id != (
    #[trigger] visit(m, root, j)).id by {
        if i < b && b <= j {
            assert(ids.contains(visit(m, root, i).id));
            assert(ids2.contains(visit(m, root, j).id));
        }
    }
}

/// The visits that begin with the top of a subtree are those of its pages.
proof fn lemma_walk(
    t: Tree,
    m: Map<PageId, Seq<u8>>,
    own: Set<PageId>,
    lo: int,
    hi: int,
    next: PageId,
    depth: nat,
    f: Frame,
    root: PageId,
    n: int,
    rest: Seq<Frame>,
) -> (r: (int, int))
    requires
        ok(t, m, own, lo, hi, next, depth),
        distinct(t),
        f.id == t.id(),
        frame_fits(f, lo, hi),
        0 <= n,
        waiting(m, root, n) == rest.push(f),
    ensures
        walked(ids_of(t), m, root, n, r.0),
        waiting(m, root, r.0) == rest,
        first_leaf_in(m, root, n, r.0, r.1, first_leaf(t)),
    decreases
            t,
            (if t is Node {
                t->Node_kids.len() + 1
            } else {
                0
            }),
{
    lemma_sound_page(t, m, own, lo, hi, next, depth, f);
    let cf = child_frames(m, f);
    assert(rest.push(f).drop_last() =~= rest);
    assert(visit(m, root, n) == f);
    assert(waiting(m, root, n + 1) == rest + cf.reverse()) by {
        reveal_with_fuel(waiting, 2);
    }
    let top = set![t.id()];
    assert(walked(top, m, root, n, n + 1));
    match t {
        Tree::Leaf { id, entries } => {
            assert(rest + cf.reverse() =~= rest);
            assert(ids_of(t) =~= top) by {
                reveal(has_id);
            }
            reveal(first_leaf);
            (n + 1, n)
        },
        Tree::Node { id, entries, kids } => {
            lemma_open_node(id, entries, kids);
            lemma_top_page(t, m, own, lo, hi, next, depth);
            assert(cf.subrange(0, cf.len() as int) =~= cf);
            let (b, i) = lemma_walk_kids(t, m, own, lo, hi, next, depth, cf, root, n + 1, rest, 0);
            let below = ids_from(kids, 0);
            assert forall|x: PageId| #[trigger] top.contains(x) implies !below.contains(x) by {}
            lemma_walked_join(top, below, m, root, n, n + 1, b);
            assert(ids_of(t) =~= top.union(below)) by {
                assert forall|x: PageId| ids_of(t).contains(x) <==> top.union(below).contains(x) by {
                    super::split::lemma_has_node(id, entries, kids, x);
                }
            }
            reveal(first_leaf);
            (b, i)
        },
    }
}

/// The visits of the children of an internal page from child `i` on.
proof fn lemma_walk_kids(
    t: Tree,
    m: Map<PageId, Seq<u8>>,
    own: Set<PageId>,
    lo: int,
    hi: int,
    next: PageId,
    depth: nat,
    cf: Seq<Frame>,
    root: PageId,
    n: int,
    rest: Seq<Frame>,
    i: int,
) -> (r: (int, int))
    requires
        t is Node,
        ok(t, m, own, lo, hi, next, depth),
        distinct(t),
        kid_frames(cf, t.entries(), t->Node_kids, lo, hi),
        0 <= n,
        0 <= i <= t->Node_kids.len(),
        waiting(m, root, n) == rest + cf.subrange(i, cf.len() as int).reverse(),
    ensures
        walked(ids_from(t->Node_kids, i), m, root, n, r.0),
        waiting(m, root, r.0) == rest,
        i < t->Node_kids.len() ==> first_leaf_in(
            m,
            root,
            n,
            r.0,
            r.1,
            first_leaf(t->Node_kids[i]),
        ),
    decreases t, t->Node_kids.len() - i,
{
    let e = t.entries();
    let kids = t->Node_kids;
    let len = cf.len() as int;
    if i == len {
        assert(rest + cf.subrange(i, len).reverse() =~= rest);
        assert(ids_from(kids, i) =~= Set::empty());
        (n, n)
    } else {
        let c = kids[i];
        let rest2 = rest + cf.subrange(i + 1, len).reverse();
        assert(rest + cf.subrange(i, len).reverse() =~= rest2.push(cf[i]));
        lemma_open_node(t.id(), e, kids);
        assert(t == Tree::Node { id: t.id(), entries: e, kids });
        assert(ok(
            c,
            m,
            own,
            bound(e, lo, hi, i),
            bound(e, lo, hi, i + 1),
            next_of(kids, next, i),
            (depth - 1) as nat,
        )) by {
            reveal(ok);
        }
        assert(distinct(c));
        let (b, first) = lemma_walk(
            c,
            m,
            own,
            bound(e, lo, hi, i),
            bound(e, lo, hi, i + 1),
            next_of(kids, next, i),
            (depth - 1) as nat,
            cf[i],
            root,
            n,
            rest2,
        );
        let (b2, other) = lemma_walk_kids(
            t,
            m,
            own,
            lo,
            hi,
            next,
            depth,
            cf,
            root,
            b,
            rest,
            i + 1,
        );
        let more = ids_from(kids, i + 1);
        assert forall|x: PageId| #[trigger] ids_of(c).contains(x) implies !more.contains(x) by {
            assert(has_id(kids[i], x));
        }
        lemma_walked_join(ids_of(c), more, m, root, n, b, b2);
        assert(ids_from(kids, i) =~= ids_of(c).union(more)) by {
            assert forall|x: PageId|
                ids_from(kids, i).contains(x) <==> ids_of(c).union(more).contains(x) by {
                if ids_of(c).contains(x) {
                    assert(has_id(kids[i], x));
                }
            }
        }
        (b2, first)
    }
}

/// Page `x` is in the chain from place `a` on and before place `b`.
pub open spec fn chained_in(
    m: Map<PageId, Seq<u8>>,
    start: PageId,
    a: int,
    b: int,
    x: PageId,
) -> bool {
    exists|j: int| a <= j < b && #[trigger] chain_page(m, start, j) == Some(x)
}

/// The pages of the chain from place `a` on and before `b` are one of each leaf
/// in `ids`, with their keys in order.
pub open spec fn chain_part(
    ids: Set<PageId>,
    m: Map<PageId, Seq<u8>>,
    start: PageId,
    a: int,
    b: int,
) -> bool {
    &&& 0 <= a <= b
    &&& forall|j: int|
        a <= j < b ==> (#[trigger] chain_page(m, start, j) matches Some(p) && ids.contains(p)
            && is_leaf(m, p) && m.contains_key(p) && !starts_below(
            listed(m[p]),
            last_key(m, start, j),
        ))
    &&& forall|x: PageId| #[trigger]
        ids.contains(x) && is_leaf(m, x) ==> chained_in(m, start, a, b, x)
    &&& forall|i: int, j: int|
        a <= i < j < b ==> #[trigger] chain_page(m, start, i) != #[trigger] chain_page(m, start, j)
}

/// The last key in the first `n` pages of the chain is below `lo`.
pub open spec fn last_below(m: Map<PageId, Seq<u8>>, start: PageId, n: int, lo: int) -> bool {
    last_key(m, start, n) matches Some(b) ==> is_key(b) && be_num(b) < lo
}

/// A link to page `next`, which is none for page zero.
pub open spec fn link_to(next: PageId) -> Option<PageId> {
    if next == 0 {
        None
    } else {
        Some(next)
    }
}

proof fn lemma_chain_join(
    ids: Set<PageId>,
    ids2: Set<PageId>,
    m: Map<PageId, Seq<u8>>,
    start: PageId,
    a: int,
    b: int,
    c: int,
)
    requires
        chain_part(ids, m, start, a, b),
        chain_part(ids2, m, start, b, c),
        forall|x: PageId| #[trigger] ids.contains(x) ==> !ids2.contains(x),
    ensures
        chain_part(ids.union(ids2), m, start, a, c),
{
    let all = ids.union(ids2);
    assert forall|x: PageId| #[trigger] all.contains(x) && is_leaf(m, x) implies chained_in(
        m,
        start,
        a,
        c,
        x,
    ) by {
        if ids.contains(x) {
            let j = choose|j: int| a <= j < b && #[trigger] chain_page(m, start, j) == Some(x);
            assert(chain_page(m, start, j) == Some(x));
        } else {
            assert(ids2.contains(x));
            let j = choose|j: int| b <= j < c && #[trigger] chain_page(m, start, j) == Some(x);
            assert(chain_page(m, start, j) == Some(x));
        }
    }
    assert forall|i: int, j: int| a <= i < j < c implies #[trigger] chain_page(m, start, i)
        != #[trigger] chain_page(m, start, j) by {
        if i < b && b <= j {
            assert(ids.contains(chain_page(m, start, i)->0));
            assert(ids2.contains(chain_page(m, start, j)->0));
        }
    }
}

/// The chain runs through the leaves of a subtree from the first one on.
pub proof fn lemma_chain(
    t: Tree,
    m: Map<PageId, Seq<u8>>,
    own: Set<PageId>,
    lo: int,
    hi: int,
    next: PageId,
    depth: nat,
    start: PageId,
    n: int,
) -> (r: int)
    requires
        ok(t, m, own, lo, hi, next, depth),
        distinct(t),
        0 <= n,
        chain_page(m, start, n) == Some(first_leaf(t)),
        last_below(m, start, n, lo),
    ensures
        chain_part(ids_of(t), m, start, n, r),
        chain_page(m, start, r) == link_to(next),
        last_below(m, start, r, hi),
    decreases
            t,
            (if t is Node {
                t->Node_kids.len() + 1
            } else {
                0
            }),
{
    lemma_top_page(t, m, own, lo, hi, next, depth);
    match t {
        Tree::Leaf { id, entries } => {
            assert(first_leaf(t) == id) by {
                reveal(first_leaf);
            }
            assert(keys_ok(entries, lo, hi) && node_of(m[id]).next_leaf == link_to(next)) by {
                reveal(ok);
            }
            lemma_all_listed(m[id]);
            assert(chain_page(m, start, n + 1) == link_to(next)) by {
                reveal_with_fuel(chain_page, 2);
            }
            assert(last_key(m, start, n + 1) == (if entries.len() > 0 {
                Some(entries.last().0)
            } else {
                last_key(m, start, n)
            })) by {
                reveal_with_fuel(last_key, 2);
            }
            if entries.len() > 0 {
                let i = entries.len() - 1;
                assert(is_key(entries[i].0) && be_num(entries[i].0) < hi);
                assert(is_key(entries[0].0) && lo <= be_num(entries[0].0));
                if last_key(m, start, n) is Some {
                    lemma_lex_is_num_order(entries[0].0, last_key(m, start, n)->0);
                }
            }
            assert(ids_of(t) =~= set![id]) by {
                reveal(has_id);
            }
            assert(chained_in(m, start, n, n + 1, id));
            n + 1
        },
        Tree::Node { id, entries, kids } => {
            lemma_open_node(id, entries, kids);
            let top = set![id];
            let below = ids_from(kids, 0);
            let r = lemma_chain_kids(t, m, own, lo, hi, next, depth, start, n, 0);
            assert(chain_part(top, m, start, n, n));
            assert forall|x: PageId| #[trigger] top.contains(x) implies !below.contains(x) by {}
            lemma_chain_join(top, below, m, start, n, n, r);
            assert(ids_of(t) =~= top.union(below)) by {
                assert forall|x: PageId| ids_of(t).contains(x) <==> top.union(below).contains(x) by {
                    super::split::lemma_has_node(id, entries, kids, x);
                }
            }
            r
        },
    }
}

/// The chain runs through the leaves of the children from child `i` on.
proof fn lemma_chain_kids(
    t: Tree,
    m: Map<PageId, Seq<u8>>,
    own: Set<PageId>,
    lo: int,
    hi: int,
    next: PageId,
    depth: nat,
    start: PageId,
    n: int,
    i: int,
) -> (r: int)
    requires
        t is Node,
        ok(t, m, own, lo, hi, next, depth),
        distinct(t),
        0 <= n,
        0 <= i < t->Node_kids.len(),
        chain_page(m, start, n) == Some(first_leaf(t->Node_kids[i])),
        last_below(m, start, n, bound(t.entries(), lo, hi, i)),
    ensures
        chain_part(ids_from(t->Node_kids, i), m, start, n, r),
        chain_page(m, start, r) == link_to(next),
        last_below(m, start, r, hi),
    decreases t, t->Node_kids.len() - i,
{
    let e = t.entries();
    let kids = t->Node_kids;
    let c = kids[i];
    let lo1 = bound(e, lo, hi, i);
    let hi1 = bound(e, lo, hi, i + 1);
    let next1 = next_of(kids, next, i);
    let d1 = (depth - 1) as nat;
    assert(t == Tree::Node { id: t.id(), entries: e, kids });
    lemma_open_node(t.id(), e, kids);
    lemma_top_page(t, m, own, lo, hi, next, depth);
    lemma_next_of(kids, next, i);
    assert(ok(c, m, own, lo1, hi1, next1, d1));
    assert(distinct(c));
    let b = lemma_chain(c, m, own, lo1, hi1, next1, d1, start, n);
    let more = ids_from(kids, i + 1);
    assert forall|x: PageId| #[trigger] ids_of(c).contains(x) implies !more.contains(x) by {
        assert(has_id(kids[i], x));
    }
    assert(ids_from(kids, i) =~= ids_of(c).union(more)) by {
        assert forall|x: PageId| ids_from(kids, i).contains(x) <==> ids_of(c).union(more).contains(
            x,
        ) by {
            if ids_of(c).contains(x) {
                assert(has_id(kids[i], x));
            }
        }
    }
    if i + 1 < kids.len() {
        let d = kids[i + 1];
        lemma_has_first(d);
        assert(ok(
            d,
            m,
            own,
            bound(e, lo, hi, i + 1),
            bound(e, lo, hi, i + 2),
            next_of(kids, next, i + 1),
            d1,
        ));
        lemma_ids_owned(
            d,
            m,
            own,
            bound(e, lo, hi, i + 1),
            bound(e, lo, hi, i + 2),
            next_of(kids, next, i + 1),
            d1,
            first_leaf(d),
        );
        let r = lemma_chain_kids(t, m, own, lo, hi, next, depth, start, b, i + 1);
        lemma_chain_join(ids_of(c), more, m, start, n, b, r);
        r
    } else {
        assert(more =~= Set::empty());
        assert(chain_part(more, m, start, b, b));
        lemma_chain_join(ids_of(c), more, m, start, n, b, b);
        b
    }
}

/// The first `n` pages of a chain without repetition are `n` pages.
proof fn lemma_chained_len(m: Map<PageId, Seq<u8>>, start: PageId, n: int)
    requires
        0 <= n,
        forall|j: int| 0 <= j < n ==> #[trigger] chain_page(m, start, j) is Some,
        forall|i: int, j: int|
            0 <= i < j < n ==> #[trigger] chain_page(m, start, i) != #[trigger] chain_page(
                m,
                start,
                j,
            ),
    ensures
        Set::new(|x: PageId| chained(m, start, n, x)).finite(),
        Set::new(|x: PageId| chained(m, start, n, x)).len() == n,
    decreases n,
{
    let s = Set::new(|x: PageId| chained(m, start, n, x));
    if n == 0 {
        assert(s =~= Set::empty());
    } else {
        lemma_chained_len(m, start, n - 1);
        let s1 = Set::new(|x: PageId| chained(m, start, n - 1, x));
        let p = chain_page(m, start, n - 1)->0;
        assert(!s1.contains(p));
        assert(s =~= s1.insert(p)) by {
            assert forall|x: PageId| s.contains(x) <==> s1.insert(p).contains(x) by {
                if x == p {
                    assert(chain_page(m, start, n - 1) == Some(x));
                } else if s1.contains(x) {
                    let j = choose|j: int|
                        0 <= j < n - 1 && #[trigger] chain_page(m, start, j) == Some(x);
                    assert(chain_page(m, start, j) == Some(x));
                }
            }
        }
    }
}

/// The high key of each leaf is the first key of the next leaf.
pub open spec fn leaves_linked(t: Tree, m: Map<PageId, Seq<u8>>) -> bool {
    forall|x: PageId| has_id(t, x) && is_leaf(m, x) ==> #[trigger] link_fault(m, x) is None
}

/// A tree passes the check of its pages if its leaves are linked.
proof fn lemma_linked_is_valid(
    m: Map<PageId, Seq<u8>>,
    root: PageId,
    n: int,
    t: Tree,
    depth: nat,
    b: int,
    i: int,
)
    requires
        tree_at(m, root, n, t, depth),
        leaves_linked(t, m),
        walked(ids_of(t), m, root, 0, b),
        waiting(m, root, b).len() == 0,
        first_leaf_in(m, root, 0, b, i, first_leaf(t)),
    ensures
        is_valid(m, root),
{
    let own = super::tree::ids_below(n);
    let start = first_leaf(t);
    let leaves = leaves_of(m, root, b);
    assert(explored(m, root, b)) by {
        reveal(sound_until);
        assert forall|j: int| 0 <= j < b implies #[trigger] waiting(m, root, j).len() > 0
            && visit_fault(m, root, j) is None by {
            assert(page_fault(m, visit(m, root, j)) is None);
            if visited(m, root, j, visit(m, root, j).id) {
                let k = choose|k: int|
                    0 <= k < j && (#[trigger] visit(m, root, k)).id == visit(m, root, j).id;
                assert(visit(m, root, k).id != visit(m, root, j).id);
            }
        }
    }
    assert(first_leaf_visit(m, root, i));
    assert(chain_page(m, start, 0) == Some(start) && last_key(m, start, 0) is None) by {
        reveal(chain_page);
        reveal(last_key);
    }
    let c = lemma_chain(t, m, own, 0, key_top(), 0, depth, start, 0);
    assert(chain_covers(m, start, leaves, c)) by {
        assert forall|x: PageId| #[trigger] chained(m, start, c, x) <==> leaves.contains(x) by {
            if chained(m, start, c, x) {
                let j = choose|j: int| 0 <= j < c && #[trigger] chain_page(m, start, j) == Some(x);
                assert(ids_of(t).contains(x));
                assert(visited_in(m, root, 0, b, x));
                let k = choose|k: int| 0 <= k < b && (#[trigger] visit(m, root, k)).id == x;
                assert(visited(m, root, b, x));
            }
            if leaves.contains(x) {
                let k = choose|k: int| 0 <= k < b && (#[trigger] visit(m, root, k)).id == x;
                assert(ids_of(t).contains(visit(m, root, k).id));
                assert(chained_in(m, start, 0, c, x));
                let j = choose|j: int| 0 <= j < c && #[trigger] chain_page(m, start, j) == Some(x);
                assert(chain_page(m, start, j) == Some(x));
            }
        }
    }
    lemma_chained_len(m, start, c);
    assert(Set::new(|x: PageId| chained(m, start, c, x)) =~= leaves);
    assert(chain_ends(m, start, leaves, c)) by {
        reveal(chain_sound_until);
        assert forall|j: int| 0 <= j < c implies #[trigger] chain_page(m, start, j) is Some
            && chain_fault(m, start, leaves.len() as int, j) is None by {
            let p = chain_page(m, start, j)->0;
            assert(ids_of(t).contains(p));
            assert(link_fault(m, p) is None);
            if chained(m, start, j, p) {
                let k = choose|k: int| 0 <= k < j && #[trigger] chain_page(m, start, k) == Some(p);
                assert(chain_page(m, start, k) != chain_page(m, start, j));
            }
        }
    }
    assert(valid_tree(m, root, b, i, c));
}

/// A tree that the operations keep passes the check of its pages exactly if
/// the high key of each leaf is the first key of the next one.
pub proof fn law_linked_tree_is_valid(
    m: Map<PageId, Seq<u8>>,
    root: PageId,
    n: int,
    t: Tree,
    depth: nat,
)
    requires
        tree_at(m, root, n, t, depth),
    ensures
        is_valid(m, root) <==> leaves_linked(t, m),
{
    let own = super::tree::ids_below(n);
    let f = Frame { id: root, lower: None, upper: None };
    let rest = Seq::<Frame>::empty();
    assert(waiting(m, root, 0) == rest.push(f)) by {
        reveal(waiting);
        assert(seq![f] =~= rest.push(f));
    }
    let (b, i) = lemma_walk(t, m, own, 0, key_top(), 0, depth, f, root, 0, rest);
    if leaves_linked(t, m) {
        lemma_linked_is_valid(m, root, n, t, depth, b, i);
    }
    if is_valid(m, root) {
        let (k, i2, c) = choose|k: int, i2: int, c: int| #[trigger] valid_tree(m, root, k, i2, c);
        let start = visit(m, root, i2).id;
        let leaves = leaves_of(m, root, k);
        assert forall|x: PageId| has_id(t, x) && is_leaf(m, x) implies #[trigger] link_fault(
            m,
            x,
        ) is None by {
            assert(ids_of(t).contains(x));
            assert(visited_in(m, root, 0, b, x));
            let j = choose|j: int| 0 <= j < b && (#[trigger] visit(m, root, j)).id == x;
            if k <= j {
                assert(waiting(m, root, k).len() > 0);
            }
            assert(visited(m, root, k, x));
            assert(leaves.contains(x));
            assert(chained(m, start, c, x));
            let l = choose|l: int| 0 <= l < c && #[trigger] chain_page(m, start, l) == Some(x);
            reveal(chain_sound_until);
            assert(chain_fault(m, start, leaves.len() as int, l) is None);
        }
    }
}

/// A leaf that may stand below the root has a key.
proof fn lemma_leaf_has_key(
    t: Tree,
    m: Map<PageId, Seq<u8>>,
    own: Set<PageId>,
    lo: int,
    hi: int,
    next: PageId,
    depth: nat,
    x: PageId,
)
    requires
        ok(t, m, own, lo, hi, next, depth),
        kid_filled(t),
        has_id(t, x),
        is_leaf(m, x),
    ensures
        node_of(m[x]).entries.len() > 0,
    decreases t,
{
    lemma_top_page(t, m, own, lo, hi, next, depth);
    match t {
        Tree::Leaf { .. } => {
            lemma_key_limits(0, tree_type(t));
            reveal(has_id);
        },
        Tree::Node { id, entries, kids } => {
            super::split::lemma_has_node(id, entries, kids, x);
            lemma_filled_node(id, entries, kids);
            let i = choose|i: int| 0 <= i < kids.len() && #[trigger] has_id(kids[i], x);
            assert(kid_filled(kids[i]));
            lemma_kid(entries, kids, m, own, lo, hi, next, depth, i);
            lemma_leaf_has_key(
                kids[i],
                m,
                own,
                bound(entries, lo, hi, i),
                bound(entries, lo, hi, i + 1),
                next_of(kids, next, i),
                (depth - 1) as nat,
                x,
            );
        },
    }
}

/// When `remove` has taken a row out of a well-shaped tree, the tree passes the
/// check of its pages if it has no more leaves than `remove` refreshes.
pub proof fn law_removal_leaves_valid(
    m: Map<PageId, Seq<u8>>,
    root: PageId,
    n: int,
    t: Tree,
    depth: nat,
)
    requires
        tree_at(m, root, n, t, depth),
        fresh_until(m, first_leaf(t), MAX_SCAN_LEAF_HOPS as int),
        chain_page(m, first_leaf(t), MAX_SCAN_LEAF_HOPS as int) is None,
        well_shaped(t),
    ensures
        is_valid(m, root),
{
    let own = super::tree::ids_below(n);
    let start = first_leaf(t);
    assert(chain_page(m, start, 0) == Some(start) && last_key(m, start, 0) is None) by {
        reveal(chain_page);
        reveal(last_key);
    }
    let c = lemma_chain(t, m, own, 0, key_top(), 0, depth, start, 0);
    if c > MAX_SCAN_LEAF_HOPS {
        assert(chain_page(m, start, MAX_SCAN_LEAF_HOPS as int) is Some);
    }
    assert forall|x: PageId| has_id(t, x) && is_leaf(m, x) implies #[trigger] link_fault(
        m,
        x,
    ) is None by {
        assert(ids_of(t).contains(x));
        let j = choose|j: int| 0 <= j < c && #[trigger] chain_page(m, start, j) == Some(x);
        if node_of(m[x]).next_leaf is Some {
            let y = node_of(m[x]).next_leaf->0;
            assert(chain_page(m, start, j + 1) == Some(y)) by {
                reveal_with_fuel(chain_page, 2);
            }
            assert(j + 1 < c);
            assert(chain_page(m, start, 0) != chain_page(m, start, j + 1));
            assert(ids_of(t).contains(y));
            lemma_ids_owned(t, m, own, 0, key_top(), 0, depth, y);
            lemma_all_listed(m[y]);
            assert(node_of(m[y]).entries.len() > 0) by {
                lemma_top_page(t, m, own, 0, key_top(), 0, depth);
                match t {
                    Tree::Leaf { .. } => {
                        reveal(has_id);
                        reveal(first_leaf);
                    },
                    Tree::Node { entries, .. } => {
                        super::split::lemma_has_node(t.id(), entries, t->Node_kids, y);
                        lemma_filled_node(t.id(), entries, t->Node_kids);
                        let kids = t->Node_kids;
                        let i = choose|i: int| 0 <= i < kids.len() && #[trigger] has_id(kids[i], y);
                        assert(kid_filled(kids[i]));
                        lemma_kid(entries, kids, m, own, 0, key_top(), 0, depth, i);
                        lemma_leaf_has_key(
                            kids[i],
                            m,
                            own,
                            bound(entries, 0, key_top(), i),
                            bound(entries, 0, key_top(), i + 1),
                            next_of(kids, 0, i),
                            (depth - 1) as nat,
                            y,
                        );
                    },
                }
            }
        }
    }
    law_linked_tree_is_valid(m, root, n, t, depth);
}

/// A tree of one leaf passes the check of its pages.
pub proof fn law_single_leaf_is_valid(
    m: Map<PageId, Seq<u8>>,
    root: PageId,
    n: int,
    t: Tree,
    depth: nat,
)
    requires
        tree_at(m, root, n, t, depth),
        t is Leaf,
    ensures
        is_valid(m, root),
{
    reveal(ok);
    reveal(has_id);
    law_linked_tree_is_valid(m, root, n, t, depth);
}

/// A leaf that keeps its link, to a leaf that keeps its first key, has no fault.
proof fn lemma_old_link_sound(
    m: Map<PageId, Seq<u8>>,
    n: int,
    t: Tree,
    depth: nat,
    m2: Map<PageId, Seq<u8>>,
    n2: int,
    t2: Tree,
    depth2: nat,
    y: PageId,
    x: PageId,
)
    requires
        ok(t, m, super::tree::ids_below(n), 0, key_top(), 0, depth),
        distinct(t),
        ok(t2, m2, super::tree::ids_below(n2), 0, key_top(), 0, depth2),
        has_id(t, y),
        is_leaf(m, y),
        same_link(m, y, m2, x),
        link_fault(m, y) is None,
        firsts_kept(t, m, m2, false),
        forall|z: PageId| #[trigger] has_id(t, z) ==> has_id(t2, z),
    ensures
        link_fault(m2, x) is None,
{
    let own = super::tree::ids_below(n);
    let own2 = super::tree::ids_below(n2);
    let start = first_leaf(t);
    if node_of(m[y]).next_leaf is Some {
        let w = node_of(m[y]).next_leaf->0;
        assert(chain_page(m, start, 0) == Some(start) && last_key(m, start, 0) is None) by {
            reveal(chain_page);
            reveal(last_key);
        }
        let c = lemma_chain(t, m, own, 0, key_top(), 0, depth, start, 0);
        assert(ids_of(t).contains(y));
        let j = choose|j: int| 0 <= j < c && #[trigger] chain_page(m, start, j) == Some(y);
        assert(chain_page(m, start, j + 1) == Some(w)) by {
            reveal_with_fuel(chain_page, 2);
        }
        assert(j + 1 < c);
        assert(chain_page(m, start, 0) != chain_page(m, start, j + 1));
        assert(ids_of(t).contains(w));
        assert(has_id(t, w) && is_leaf(m, w));
        lemma_ids_owned(t, m, own, 0, key_top(), 0, depth, w);
        lemma_ids_owned(t2, m2, own2, 0, key_top(), 0, depth2, w);
        lemma_all_listed(m[w]);
        lemma_all_listed(m2[w]);
    }
}

/// An insert keeps a tree whose leaves begin at their separators, and which
/// passes the check of its pages, so. Trees that grow from an empty one by inserts
/// are such: `PageBPlusTree::new` makes one, and `insert` keeps them snug.
pub proof fn law_insert_keeps_valid(
    m: Map<PageId, Seq<u8>>,
    root: PageId,
    n: int,
    t: Tree,
    depth: nat,
    m2: Map<PageId, Seq<u8>>,
    root2: PageId,
    n2: int,
    t2: Tree,
    depth2: nat,
    key: Seq<u8>,
)
    requires
        tree_at(m, root, n, t, depth),
        is_valid(m, root),
        tree_at(m2, root2, n2, t2, depth2),
        links_kept(ids_of(t), ids_of(t2), m, m2, key),
        snug(t, None) ==> firsts_kept(t, m, m2, false),
        snug(t, None),
    ensures
        is_valid(m2, root2),
{
    let own2 = super::tree::ids_below(n2);
    law_linked_tree_is_valid(m, root, n, t, depth);
    reveal(links_kept);
    assert forall|z: PageId| #[trigger] has_id(t, z) implies has_id(t2, z) by {
        assert(ids_of(t).contains(z));
        assert(ids_of(t2).contains(z));
    }
    assert forall|x: PageId| has_id(t2, x) && is_leaf(m2, x) implies #[trigger] link_fault(
        m2,
        x,
    ) is None by {
        assert(ids_of(t2).contains(x));
        if old_link(ids_of(t), m, m2, x) {
            let y = choose|y: PageId| #[trigger]
                ids_of(t).contains(y) && is_leaf(m, y) && same_link(m, y, m2, x);
            assert(link_fault(m, y) is None);
            lemma_old_link_sound(m, n, t, depth, m2, n2, t2, depth2, y, x);
        } else {
            let z = choose|z: PageId| #[trigger] new_link(ids_of(t2), m2, x, z);
            lemma_ids_owned(t2, m2, own2, 0, key_top(), 0, depth2, z);
            lemma_all_listed(m2[z]);
        }
    }
    law_linked_tree_is_valid(m2, root2, n2, t2, depth2);
}

/// Seven rows of a subtree that may stand below the root.
proof fn lemma_seven_rows(
    t: Tree,
    m: Map<PageId, Seq<u8>>,
    own: Set<PageId>,
    lo: int,
    hi: int,
    next: PageId,
    depth: nat,
) -> (s: Set<int>)
    requires
        ok(t, m, own, lo, hi, next, depth),
        kid_filled(t),
    ensures
        s.finite(),
        s.len() == 7,
        forall|k: int| #[trigger] s.contains(k) ==> lo <= k < hi && lookup(t, k) is Some,
    decreases t,
{
    lemma_top_page(t, m, own, lo, hi, next, depth);
    match t {
        Tree::Leaf { id, entries } => {
            lemma_key_limits(0, tree_type(t));
            assert(keys_ok(entries, lo, hi)) by {
                reveal(ok);
            }
            lemma_leaf_tree(id, entries);
            lemma_first_keys(entries, 7);
            let s = Set::new(|k: int| exists|j: int| 0 <= j < 7 && key_nums(entries)[j] == k);
            assert forall|k: int| #[trigger] s.contains(k) implies lo <= k < hi && lookup(
                t,
                k,
            ) is Some by {
                let j = choose|j: int| 0 <= j < 7 && key_nums(entries)[j] == k;
                assert(be_num(entries[j].0) == k);
                assert(lookup(t, k) == leaf_get(entries, k));
            }
            s
        },
        Tree::Node { id, entries, kids } => {
            lemma_filled_node(id, entries, kids);
            assert(kid_filled(kids[0]));
            lemma_kid(entries, kids, m, own, lo, hi, next, depth, 0);
            lemma_bounds(entries, kids, lo, hi, 0);
            let s = lemma_seven_rows(
                kids[0],
                m,
                own,
                bound(entries, lo, hi, 0),
                bound(entries, lo, hi, 1),
                next_of(kids, next, 0),
                (depth - 1) as nat,
            );
            assert forall|k: int| #[trigger] s.contains(k) implies lo <= k < hi && lookup(
                t,
                k,
            ) is Some by {
                lemma_route_from_bounds(entries, kids, lo, hi, k, 0);
                reveal(lookup);
            }
            s
        },
    }
}

proof fn lemma_first_keys(e: Entries, n: int)
    requires
        0 <= n <= e.len(),
        ascending(key_nums(e)),
    ensures
        Set::new(|k: int| exists|j: int| 0 <= j < n && key_nums(e)[j] == k).finite(),
        Set::new(|k: int| exists|j: int| 0 <= j < n && key_nums(e)[j] == k).len() == n,
    decreases n,
{
    let ks = key_nums(e);
    let s = Set::new(|k: int| exists|j: int| 0 <= j < n && ks[j] == k);
    if n == 0 {
        assert(s =~= Set::empty());
    } else {
        lemma_first_keys(e, n - 1);
        let s1 = Set::new(|k: int| exists|j: int| 0 <= j < n - 1 && ks[j] == k);
        assert(!s1.contains(ks[n - 1])) by {
            if s1.contains(ks[n - 1]) {
                let top = ks[n - 1];
                let j = choose|j: int| 0 <= j < n - 1 && ks[j] == top;
                assert(ks[j] < ks[n - 1]);
            }
        }
        assert(s =~= s1.insert(ks[n - 1])) by {
            assert forall|k: int| s.contains(k) <==> s1.insert(ks[n - 1]).contains(k) by {
                if s1.contains(k) {
                    let j = choose|j: int| 0 <= j < n - 1 && ks[j] == k;
                    assert(0 <= j < n && ks[j] == k);
                }
                if k == ks[n - 1] {
                    assert(0 <= n - 1 < n && ks[n - 1] == k);
                }
            }
        }
    }
}

/// A well-shaped tree of fewer than fourteen rows is one leaf.
pub proof fn law_few_rows_are_one_leaf(
    m: Map<PageId, Seq<u8>>,
    root: PageId,
    n: int,
    t: Tree,
    depth: nat,
)
    requires
        tree_at(m, root, n, t, depth),
        well_shaped(t),
        rows_of(t).dom().finite(),
        rows_of(t).dom().len() < 14,
    ensures
        t is Leaf,
        root == first_leaf(t),
{
    let own = super::tree::ids_below(n);
    let hi = key_top();
    lemma_top_page(t, m, own, 0, hi, 0, depth);
    match t {
        Tree::Leaf { .. } => {
            reveal(first_leaf);
        },
        Tree::Node { id, entries, kids } => {
            lemma_filled_node(id, entries, kids);
            assert(kid_filled(kids[0]) && kid_filled(kids[1]));
            lemma_kid(entries, kids, m, own, 0, hi, 0, depth, 0);
            lemma_kid(entries, kids, m, own, 0, hi, 0, depth, 1);
            lemma_bounds(entries, kids, 0, hi, 0);
            lemma_bounds(entries, kids, 0, hi, 1);
            let d1 = (depth - 1) as nat;
            let mid = bound(entries, 0, hi, 1);
            let top = bound(entries, 0, hi, 2);
            let a = lemma_seven_rows(kids[0], m, own, 0, mid, next_of(kids, 0, 0), d1);
            let b = lemma_seven_rows(kids[1], m, own, mid, top, next_of(kids, 0, 1), d1);
            let all = a.union(b);
            vstd::set_lib::lemma_set_disjoint_lens(a, b);
            let rows = rows_of(t).dom();
            let nums = rows.map(|k: Seq<u8>| be_num(k));
            rows.lemma_map_finite(|k: Seq<u8>| be_num(k));
            assert forall|k: int| all.contains(k) implies nums.contains(k) by {
                if a.contains(k) {
                    lemma_route_from_bounds(entries, kids, 0, hi, k, 0);
                } else {
                    lemma_route_from_bounds(entries, kids, 0, hi, k, 1);
                }
                reveal(lookup);
                assert(lookup(t, k) is Some);
                let key = lemma_key_of(t, m, own, 0, hi, 0, depth, k);
                assert(rows.contains(key));
                assert(be_num(key) == k);
            }
            vstd::set_lib::lemma_len_subset(all, nums);
            lemma_map_len(rows, |k: Seq<u8>| be_num(k));
        },
    }
}

/// The image of a set is not larger than the set.
proof fn lemma_map_len<A, B>(s: Set<A>, f: spec_fn(A) -> B)
    requires
        s.finite(),
    ensures
        s.map(f).finite(),
        s.map(f).len() <= s.len(),
    decreases s.len(),
{
    if s.len() == 0 {
        assert(s =~= Set::empty());
        assert(s.map(f) =~= Set::empty());
    } else {
        let x = s.choose();
        let rest = s.remove(x);
        lemma_map_len(rest, f);
        assert(s.map(f) =~= rest.map(f).insert(f(x))) by {
            assert forall|y: B| s.map(f).contains(y) <==> rest.map(f).insert(f(x)).contains(y) by {
                if s.map(f).contains(y) {
                    let z = choose|z: A| s.contains(z) && f(z) == y;
                    if z != x {
                        assert(rest.contains(z));
                    }
                }
                if rest.map(f).contains(y) {
                    let z = choose|z: A| rest.contains(z) && f(z) == y;
                    assert(s.contains(z));
                }
                if y == f(x) {
                    assert(s.contains(x));
                }
            }
        }
    }
}

/// The key that a row is stored under.
proof fn lemma_key_of(
    t: Tree,
    m: Map<PageId, Seq<u8>>,
    own: Set<PageId>,
    lo: int,
    hi: int,
    next: PageId,
    depth: nat,
    k: int,
) -> (key: Seq<u8>)
    requires
        ok(t, m, own, lo, hi, next, depth),
        lookup(t, k) is Some,
    ensures
        is_key(key),
        be_num(key) == k,
    decreases t,
{
    lemma_top_page(t, m, own, lo, hi, next, depth);
    match t {
        Tree::Leaf { id, entries } => {
            lemma_leaf_tree(id, entries);
            assert(lookup(t, k) == leaf_get(entries, k));
            assert(keys_ok(entries, lo, hi)) by {
                reveal(ok);
            }
            let i = choose|i: int| 0 <= i < entries.len() && be_num((#[trigger] entries[i]).0) == k;
            entries[i].0
        },
        Tree::Node { id, entries, kids } => {
            let r = route(key_nums(entries), k);
            assert(0 <= r < kids.len() && lookup(kids[r], k) is Some) by {
                reveal(lookup);
            }
            lemma_kid(entries, kids, m, own, lo, hi, next, depth, r);
            lemma_key_of(
                kids[r],
                m,
                own,
                bound(entries, lo, hi, r),
                bound(entries, lo, hi, r + 1),
                next_of(kids, next, r),
                (depth - 1) as nat,
                k,
            )
        },
    }
}

/// A subtree with leaves `depth` levels down has at least `2^depth` pages.
proof fn lemma_many_pages(
    t: Tree,
    m: Map<PageId, Seq<u8>>,
    own: Set<PageId>,
    lo: int,
    hi: int,
    next: PageId,
    depth: nat,
)
    requires
        ok(t, m, own, lo, hi, next, depth),
        distinct(t),
        well_shaped(t),
        ids_of(t).finite(),
    ensures
        ids_of(t).len() >= pow2(depth),
    decreases t,
{
    lemma_top_page(t, m, own, lo, hi, next, depth);
    lemma_has_top(t);
    assert(ids_of(t).contains(t.id()));
    lemma2_to64();
    match t {
        Tree::Leaf { .. } => {
            vstd::set_lib::lemma_len_subset(set![t.id()], ids_of(t));
        },
        Tree::Node { id, entries, kids } => {
            lemma_open_node(id, entries, kids);
            lemma_filled_node(id, entries, kids);
            let d1 = (depth - 1) as nat;
            lemma_pow2_unfold(depth);
            let a = ids_of(kids[0]);
            let b = ids_of(kids[1]);
            assert forall|x: PageId| a.contains(x) implies ids_of(t).contains(x) by {
                assert(has_id(kids[0], x));
                assert(any_has_id(kids, x));
            }
            assert forall|x: PageId| b.contains(x) implies ids_of(t).contains(x) by {
                assert(has_id(kids[1], x));
                assert(any_has_id(kids, x));
            }
            assert(a.subset_of(ids_of(t)) && b.subset_of(ids_of(t)));
            vstd::set_lib::lemma_len_subset(a, ids_of(t));
            vstd::set_lib::lemma_len_subset(b, ids_of(t));
            assert forall|i: int| 0 <= i < 2 implies #[trigger] ids_of(kids[i]).len() >= pow2(
                d1,
            ) by {
                lemma_kid(entries, kids, m, own, lo, hi, next, depth, i);
                assert(kid_filled(kids[i]));
                lemma_top_page(
                    kids[i],
                    m,
                    own,
                    bound(entries, lo, hi, i),
                    bound(entries, lo, hi, i + 1),
                    next_of(kids, next, i),
                    d1,
                );
                lemma_key_limits(0, tree_type(kids[i]));
                assert(distinct(kids[i]));
                lemma_many_pages(
                    kids[i],
                    m,
                    own,
                    bound(entries, lo, hi, i),
                    bound(entries, lo, hi, i + 1),
                    next_of(kids, next, i),
                    d1,
                );
            }
            assert(a.disjoint(b)) by {
                assert forall|x: PageId| !(a.contains(x) && b.contains(x)) by {
                    if has_id(kids[0], x) {
                        assert(!has_id(kids[1], x));
                    }
                }
            }
            vstd::set_lib::lemma_set_disjoint_lens(a, b);
            vstd::set_lib::lemma_len_subset(a.union(b), ids_of(t));
        },
    }
}

/// A well-shaped tree is never so deep that a lookup or a scan would give up.
pub proof fn law_shaped_tree_is_shallow(
    m: Map<PageId, Seq<u8>>,
    root: PageId,
    n: int,
    t: Tree,
    depth: nat,
)
    requires
        tree_at(m, root, n, t, depth),
        well_shaped(t),
    ensures
        depth <= 64,
        depth < MAX_SCAN_LEAF_HOPS,
{
    let own = super::tree::ids_below(n);
    let ids = ids_of(t);
    let top: int = 0x1_0000_0000_0000_0000;
    let ints = vstd::set_lib::set_int_range(0, top);
    vstd::set_lib::lemma_int_range(0, top);
    let f = |x: int| x as PageId;
    lemma_map_len(ints, f);
    assert forall|x: PageId| #[trigger] ids.contains(x) implies ints.map(f).contains(x) by {
        assert(ints.contains(x as int));
        assert(f(x as int) == x);
    }
    assert(ids.subset_of(ints.map(f)));
    vstd::set_lib::lemma_len_subset(ids, ints.map(f));
    lemma_many_pages(t, m, own, 0, key_top(), 0, depth);
    if depth > 64 {
        lemma_pow2_strictly_increases(64, depth);
        lemma2_to64();
        lemma2_to64_rest();
    }
}

} // verus!
