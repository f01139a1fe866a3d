//! Removing a row: pages that are at most half full are evened out on the way
//! down.
use vstd::prelude::*;

use super::chain::sized;
use super::insert::{lemma_child_of, lemma_descend_step, lemma_kid};
use super::node_page::{ascending, child_id_at_pos, child_insert_pos_for_key, collect_entries,
    count_of, encodable, encode_entries, entries_sized, entries_view, entry_size_of, find_key_pos, key_nums, lemma_canonical_table,
    max_keys_of, min_keys_non_root, node_of, page_header, rebuild_page_with_remove, NodeModel,
    HEADER_SIZE, OFFSET_ENTRY_SIZE, PAGE_TYPE_INTERNAL, PAGE_TYPE_LEAF};
use super::provider::AsyncPageProvider;
use super::rebalance::{joined, lemma_joined_sized, merge_pair, redistribute, same_but};
use super::shape::{all_filled, filled, kid_filled, least_keys_of, lemma_filled_leaf,
    lemma_filled_node, lemma_filled_spliced, lemma_key_limits, well_shaped};
use super::split::{lemma_leaf_tree, lemma_lookup_node, lemma_one_kid, lemma_open_node,
    lemma_top_page, lemma_two_kids, lone, own_below, seq_one, tree_type, two};
use super::tree_lemmas::{lemma_leaf_remove, lookup_kids, spliced_entries, spliced_kids};
use super::tree_model::{any_has_id, bound, distinct, first_leaf, has_id, keys_ok, leaf_get,
    leaf_page_ok, lemma_bounds, lemma_has_top, lemma_leaf_get, lemma_next_of, lemma_route, lemma_route_bounds,
    lemma_route_from_bounds, lemma_route_unique, link_at, lookup, next_of, ok, route, Entries,
    Tree};
use crate::common::{bytes_view, page_bytes, page_from_vec, Page, PageId, PAGE_SIZE};
use crate::key_order::{be_num, is_key, lemma_lex_is_num_order};
use crate::layout::{copy_bytes, u64_at};

verus! {

/// What an operation inside the subtree `t` leaves behind.
pub open spec fn reshaped(
    t: Tree,
    t2: Tree,
    m: Map<PageId, Seq<u8>>,
    m2: Map<PageId, Seq<u8>>,
    own: Set<PageId>,
    lo: int,
    hi: int,
    next: PageId,
    depth: nat,
) -> bool {
    &&& ok(t2, m2, own, lo, hi, next, depth)
    &&& distinct(t2)
    &&& t2.id() == t.id()
    &&& first_leaf(t2) == first_leaf(t)
    &&& forall|x: PageId| #[trigger] has_id(t2, x) ==> has_id(t, x)
    &&& forall|x: PageId|
        !has_id(t, x) ==> (#[trigger] m2.contains_key(x) == m.contains_key(x)) && m2[x] == m[x]
}

/// The rows of `t` without key `kn`.
pub open spec fn without(t: Tree, t2: Tree, lo: int, hi: int, kn: int) -> bool {
    forall|k: int|
        lo <= k < hi ==> #[trigger] lookup(t2, k) == (if k == kn {
            None
        } else {
            lookup(t, k)
        })
}

/// The rows of `t`.
pub open spec fn same_rows(t: Tree, t2: Tree, lo: int, hi: int) -> bool {
    forall|k: int| lo <= k < hi ==> #[trigger] lookup(t2, k) == lookup(t, k)
}

/// The delete at a leaf. Tells whether the key was there, and at the first place.
#[verifier::spinoff_prover]
fn remove_in_leaf<P: AsyncPageProvider>(
    p: &mut P,
    id: PageId,
    key: &[u8],
    Ghost(t): Ghost<Tree>,
    Ghost(own): Ghost<Set<PageId>>,
    Ghost(lo): Ghost<int>,
    Ghost(hi): Ghost<int>,
    Ghost(next): Ghost<PageId>,
) -> (r: (Option<usize>, Ghost<Tree>))
    requires
        ok(t, old(p).pages(), own, lo, hi, next, 0),
        t.id() == id,
        t is Leaf,
        is_key(key@),
        lo <= be_num(key@) < hi,
    ensures
        sized(old(p).pages()) ==> sized(final(p).pages()),
        final(p).root() == old(p).root(),
        final(p).naming() == old(p).naming(),
        forall|base: Map<PageId, Seq<u8>>| #[trigger]
            old(p).covers(base) ==> final(p).covers(base),
        final(p).next_id() == old(p).next_id(),
        reshaped(t, r.1@, old(p).pages(), final(p).pages(), own, lo, hi, next, 0),
        without(t, r.1@, lo, hi, be_num(key@)),
        r.0 is Some <==> lookup(t, be_num(key@)) is Some,
        r.1@ is Leaf,
        r.0 is None ==> final(p).pages() == old(p).pages() && r.1@ == t,
        r.0 matches Some(pos) ==> pos < t.entries().len() && r.1@.entries() == t.entries().remove(
            pos as int,
        ) && node_of(final(p).pages()[id]) == (NodeModel {
            entries: r.1@.entries(),
            ..node_of(old(p).pages()[id])
        }),
{
    let ghost m0 = p.pages();
    let ghost e = t.entries();
    let ghost kn = be_num(key@);
    proof {
        lemma_top_page(t, m0, own, lo, hi, next, 0);
        lemma_canonical_table(m0[id]);
        lemma_leaf_tree(id, e);
        assert(t == Tree::Leaf { id, entries: e });
        assert(keys_ok(e, lo, hi) && leaf_page_ok(m0, own, id, e, hi, next)) by {
            reveal(ok);
        }
    }
    let page = p.read_page(id).unwrap();
    let bytes = page_bytes(&page);
    let header = page_header(bytes);
    let (found, pos) = find_key_pos(bytes, key).unwrap();
    if !found {
        proof {
            let ks = key_nums(e);
            assert forall|j: int| 0 <= j < e.len() implies be_num((#[trigger] e[j]).0) != kn by {
                assert(ks[j] == be_num(e[j].0));
                if ks[j] == kn {
                    if pos < j {
                        assert(ks[pos as int] < ks[j]);
                        assert(kn <= ks[pos as int]);
                    }
                    lemma_lex_is_num_order(e[j].0, key@);
                }
            }
            assert(lookup(t, kn) is None);
        }
        return (None, Ghost(t));
    }
    proof {
        lemma_leaf_get(e, pos as int);
        lemma_leaf_remove(e, pos as int, lo, hi);
    }
    let rebuilt = rebuild_page_with_remove(bytes, header, pos).unwrap();
    p.write_page(id, rebuilt);
    let ghost e2 = e.remove(pos as int);
    let ghost t2 = Tree::Leaf { id, entries: e2 };
    proof {
        lemma_leaf_tree(id, e2);
        assert(ok(t2, p.pages(), own, lo, hi, next, 0)) by {
            reveal(ok);
        }
        assert forall|k: int| lo <= k < hi implies #[trigger] lookup(t2, k) == (if k == kn {
            None
        } else {
            lookup(t, k)
        }) by {
            assert(lookup(t2, k) == leaf_get(e2, k));
        }
    }
    (Some(pos), Ghost(t2))
}

/// `t1` is `t` with its children evened out: it lost at most one of them, all are
/// full enough, and child `i` stays so when it loses an entry.
pub open spec fn safe_below(t: Tree, t1: Tree, i: int) -> bool {
    &&& filled(t1)
    &&& t1.entries().len() + 1 >= t.entries().len()
    &&& t1->Node_kids[i].entries().len() > least_keys_of(tree_type(t1->Node_kids[i]))
}

/// The keys of a child lie below the separator on its right and not below the
/// one on its left.
proof fn lemma_child_keys(
    t: Tree,
    m: Map<PageId, Seq<u8>>,
    own: Set<PageId>,
    lo: int,
    hi: int,
    next: PageId,
    depth: nat,
    i: int,
    j: int,
)
    requires
        t is Node,
        ok(t, m, own, lo, hi, next, depth),
        distinct(t),
        0 <= i < t->Node_kids.len(),
        0 <= j < t->Node_kids[i].entries().len(),
    ensures
        i > 0 ==> be_num(t.entries()[i - 1].0) <= be_num(t->Node_kids[i].entries()[j].0),
        i < t.entries().len() ==> be_num(t->Node_kids[i].entries()[j].0) < be_num(
            t.entries()[i].0,
        ),
        j > 0 ==> be_num(t->Node_kids[i].entries()[j - 1].0) < be_num(
            t->Node_kids[i].entries()[j].0,
        ),
{
    lemma_child_facts(t, m, own, lo, hi, next, depth, i);
    let c = t->Node_kids[i];
    let ks = key_nums(c.entries());
    reveal(ok);
    assert(ks[j] == be_num(c.entries()[j].0));
    if j > 0 {
        assert(ks[j - 1] < ks[j]);
    }
}

/// The separators beside the place of a key.
proof fn lemma_route_sides(e: Entries, kn: int, i: int)
    requires
        ascending(key_nums(e)),
        i == route(key_nums(e), kn),
    ensures
        0 <= i <= e.len(),
        i > 0 ==> be_num(e[i - 1].0) <= kn,
        i < e.len() ==> kn < be_num(e[i].0),
{
    let ks = key_nums(e);
    lemma_route(ks, kn);
    if i > 0 {
        assert(ks[i - 1] <= kn);
    }
    if i < e.len() {
        assert(kn < ks[i]);
    }
}

/// The place of a key among separators that stand on both sides of it.
proof fn lemma_route_at(e: Entries, kn: int, i: int)
    requires
        ascending(key_nums(e)),
        0 <= i <= e.len(),
        i > 0 ==> be_num(e[i - 1].0) <= kn,
        i < e.len() ==> kn < be_num(e[i].0),
    ensures
        route(key_nums(e), kn) == i,
{
    let ks = key_nums(e);
    assert forall|j: int| 0 <= j < i implies #[trigger] ks[j] <= kn by {
        assert(ks[i - 1] <= kn);
        if j < i - 1 {
            assert(ks[j] < ks[i - 1]);
        }
    }
    assert forall|j: int| i <= j < ks.len() implies kn < #[trigger] ks[j] by {
        assert(kn < ks[i]);
        if i < j {
            assert(ks[i] < ks[j]);
        }
    }
    lemma_route_unique(ks, kn, i);
}

/// Child `i` got an entry from its neighbour; `a` is the left one of the two.
#[verifier::spinoff_prover]
proof fn lemma_safe_borrow(
    t: Tree,
    t2: Tree,
    m: Map<PageId, Seq<u8>>,
    m2: Map<PageId, Seq<u8>>,
    own: Set<PageId>,
    lo: int,
    hi: int,
    next: PageId,
    depth: nat,
    i: int,
    a: int,
    cut: int,
    kn: int,
)
    requires
        t is Node,
        ok(t, m, own, lo, hi, next, depth),
        distinct(t),
        i == route(key_nums(t.entries()), kn),
        0 <= a,
        a + 1 < t->Node_kids.len(),
        a == i || a == i - 1,
        t2 is Node,
        ok(t2, m2, own, lo, hi, next, depth),
        ({
            let e = t.entries();
            let l = t->Node_kids[a];
            let r = t->Node_kids[a + 1];
            let je = joined(node_of(m[l.id()]), node_of(m[r.id()]), e[a].0);
            let half = max_keys_of(tree_type(l)) / 2;
            &&& t2->Node_kids.len() == t->Node_kids.len()
            &&& t2.entries() == e.update(a, (je[cut].0, e[a].1))
            &&& t2->Node_kids[a].entries() == je.take(cut)
            &&& t2->Node_kids[a + 1].entries() == (if l is Leaf {
                je.skip(cut)
            } else {
                je.skip(cut + 1)
            })
            &&& tree_type(t2->Node_kids[a]) == tree_type(l)
            &&& tree_type(t2->Node_kids[a + 1]) == tree_type(l)
            &&& filled(t) && cut >= least_keys_of(tree_type(l))
                && t2->Node_kids[a + 1].entries().len() >= least_keys_of(tree_type(l)) ==> filled(
                t2,
            )
            &&& a == i ==> cut == l.entries().len() + 1 && r.entries().len() > half
            &&& a == i - 1 ==> cut == l.entries().len() - 1 && l.entries().len() > half
        }),
    ensures
        route(key_nums(t2.entries()), kn) == i,
        well_shaped(t) ==> safe_below(t, t2, i),
{
    let e = t.entries();
    let kids = t->Node_kids;
    let l = kids[a];
    let r = kids[a + 1];
    let je = joined(node_of(m[l.id()]), node_of(m[r.id()]), e[a].0);
    lemma_child_facts(t, m, own, lo, hi, next, depth, a);
    lemma_child_facts(t, m, own, lo, hi, next, depth, a + 1);
    lemma_key_limits(0, tree_type(l));
    assert(ascending(key_nums(e)) && ascending(key_nums(t2.entries()))) by {
        reveal(ok);
    }
    lemma_route_sides(e, kn, i);
    if a == i {
        lemma_child_keys(t, m, own, lo, hi, next, depth, i + 1, 0);
        lemma_child_keys(t, m, own, lo, hi, next, depth, i + 1, 1);
        if l is Leaf {
            assert(je[cut] == r.entries()[1]);
        } else {
            assert(je[cut] == r.entries()[0]);
        }
    } else {
        lemma_child_keys(t, m, own, lo, hi, next, depth, a, cut);
        assert(je[cut] == l.entries()[cut]);
    }
    lemma_route_at(t2.entries(), kn, i);
    if well_shaped(t) {
        assert(t == Tree::Node { id: t.id(), entries: e, kids });
        lemma_filled_node(t.id(), e, kids);
        assert(kid_filled(kids[a]) && kid_filled(kids[a + 1]));
    }
}

/// Child `i` was merged with a neighbour; `a` is the left one of the two.
#[verifier::spinoff_prover]
proof fn lemma_safe_merge(
    t: Tree,
    t2: Tree,
    m: Map<PageId, Seq<u8>>,
    m2: Map<PageId, Seq<u8>>,
    own: Set<PageId>,
    lo: int,
    hi: int,
    next: PageId,
    depth: nat,
    i: int,
    a: int,
    kn: int,
)
    requires
        t is Node,
        ok(t, m, own, lo, hi, next, depth),
        distinct(t),
        i == route(key_nums(t.entries()), kn),
        0 <= a,
        a + 1 < t->Node_kids.len(),
        a == i || a == i - 1,
        t2 is Node,
        ok(t2, m2, own, lo, hi, next, depth),
        ({
            let e = t.entries();
            let l = t->Node_kids[a];
            let r = t->Node_kids[a + 1];
            let je = joined(node_of(m[l.id()]), node_of(m[r.id()]), e[a].0);
            &&& t2.entries() == e.remove(a)
            &&& t2->Node_kids[a].entries() == je
            &&& tree_type(t2->Node_kids[a]) == tree_type(l)
            &&& filled(t) ==> filled(t2)
        }),
    ensures
        route(key_nums(t2.entries()), kn) == a,
        well_shaped(t) ==> safe_below(t, t2, a),
{
    let e = t.entries();
    let kids = t->Node_kids;
    lemma_child_facts(t, m, own, lo, hi, next, depth, a);
    lemma_child_facts(t, m, own, lo, hi, next, depth, a + 1);
    lemma_key_limits(0, tree_type(kids[a]));
    assert(ascending(key_nums(e)) && ascending(key_nums(t2.entries()))) by {
        reveal(ok);
    }
    lemma_route_sides(e, kn, i);
    let ks = key_nums(e);
    if a > 0 {
        assert(ks[a - 1] < ks[a]);
    }
    if a + 1 < e.len() {
        assert(ks[a] < ks[a + 1]);
    }
    lemma_route_at(t2.entries(), kn, a);
    if well_shaped(t) {
        assert(t == Tree::Node { id: t.id(), entries: e, kids });
        lemma_filled_node(t.id(), e, kids);
        assert(kid_filled(kids[a]) && kid_filled(kids[a + 1]));
    }
}

/// Makes child `child_pos` of page `id` safe to descend into: when it is at
/// most half full it gets an entry from a fuller neighbour, or is merged with
/// one. Returns the place of the child that `key` then belongs to.
#[verifier::spinoff_prover]
#[verifier::rlimit(60)]
fn make_child_safe<P: AsyncPageProvider>(
    p: &mut P,
    id: PageId,
    key: &[u8],
    Ghost(t): Ghost<Tree>,
    Ghost(own): Ghost<Set<PageId>>,
    Ghost(lo): Ghost<int>,
    Ghost(hi): Ghost<int>,
    Ghost(next): Ghost<PageId>,
    Ghost(depth): Ghost<nat>,
) -> (r: (usize, Ghost<Tree>))
    requires
        t is Node,
        ok(t, old(p).pages(), own, lo, hi, next, depth),
        distinct(t),
        t.id() == id,
        is_key(key@),
        lo <= be_num(key@) < hi,
    ensures
        sized(old(p).pages()) ==> sized(final(p).pages()),
        final(p).root() == old(p).root(),
        final(p).naming() == old(p).naming(),
        forall|base: Map<PageId, Seq<u8>>| #[trigger]
            old(p).covers(base) ==> final(p).covers(base),
        final(p).next_id() == old(p).next_id(),
        reshaped(t, r.1@, old(p).pages(), final(p).pages(), own, lo, hi, next, depth),
        same_rows(t, r.1@, lo, hi),
        r.1@ is Node,
        r.0 == route(key_nums(r.1@.entries()), be_num(key@)),
        r.0 < r.1@->Node_kids.len(),
        well_shaped(t) ==> safe_below(t, r.1@, r.0 as int),
{
    let ghost m0 = p.pages();
    let ghost e = t.entries();
    let ghost kids = t->Node_kids;
    let ghost kn = be_num(key@);
    proof {
        lemma_top_page(t, m0, own, lo, hi, next, depth);
        lemma_canonical_table(m0[id]);
        lemma_has_top(t);
        lemma_route_bounds(e, kids, lo, hi, kn);
    }
    let page = p.read_page(id).unwrap();
    let bytes = page_bytes(&page);
    let key_count: usize = page_header(bytes).key_count as usize;
    let child_pos: usize = child_insert_pos_for_key(bytes, key);
    let ghost i = child_pos as int;
    proof {
        lemma_route_unique(key_nums(e), kn, i);
        lemma_child_facts(t, m0, own, lo, hi, next, depth, i);
    }
    let child_id: PageId = child_id_at_pos(bytes, child_pos);
    let child_page = p.read_page(child_id).unwrap();
    let child_header = page_header(page_bytes(&child_page));
    let child_count: usize = child_header.key_count as usize;
    let min_keys: usize = min_keys_non_root(child_header.page_type);
    proof {
        lemma_key_limits(0, child_header.page_type);
    }
    if child_count > min_keys {
        return (child_pos, Ghost(t));
    }
    if child_pos > 0 {
        proof {
            lemma_child_facts(t, m0, own, lo, hi, next, depth, i - 1);
        }
        let left_id: PageId = child_id_at_pos(bytes, child_pos - 1);
        let left_page = p.read_page(left_id).unwrap();
        let left_count: usize = page_header(page_bytes(&left_page)).key_count as usize;
        if left_count > min_keys {
            proof {
                lemma_pair_types(t, m0, own, lo, hi, next, depth, i - 1);
                lemma_move_fits(left_count as int, child_count as int, child_header.page_type);
            }
            let Ghost(t2) = redistribute(
                p,
                id,
                &page,
                child_pos - 1,
                left_id,
                &left_page,
                child_id,
                &child_page,
                left_count - 1,
                Ghost(t),
                Ghost(own),
                Ghost(lo),
                Ghost(hi),
                Ghost(next),
                Ghost(depth),
            );
            let pos: usize = route_again(
                p,
                id,
                key,
                Ghost(t2),
                Ghost(own),
                Ghost(lo),
                Ghost(hi),
                Ghost(next),
                Ghost(depth),
                Ghost(t),
                Ghost(m0),
                Ghost(left_id),
                Ghost(child_id),
            );
            proof {
                lemma_safe_borrow(
                    t,
                    t2,
                    m0,
                    p.pages(),
                    own,
                    lo,
                    hi,
                    next,
                    depth,
                    i,
                    i - 1,
                    left_count - 1,
                    kn,
                );
            }
            return (pos, Ghost(t2));
        }
        assert(kids[i - 1].entries().len() <= min_keys);
    }
    if child_pos < key_count {
        proof {
            lemma_child_facts(t, m0, own, lo, hi, next, depth, i + 1);
            lemma_pair_types(t, m0, own, lo, hi, next, depth, i);
        }
        let right_id: PageId = child_id_at_pos(bytes, child_pos + 1);
        let right_page = p.read_page(right_id).unwrap();
        let right_count: usize = page_header(page_bytes(&right_page)).key_count as usize;
        if right_count > min_keys {
            proof {
                lemma_move_fits(right_count as int, child_count as int, child_header.page_type);
            }
            let Ghost(t2) = redistribute(
                p,
                id,
                &page,
                child_pos,
                child_id,
                &child_page,
                right_id,
                &right_page,
                child_count + 1,
                Ghost(t),
                Ghost(own),
                Ghost(lo),
                Ghost(hi),
                Ghost(next),
                Ghost(depth),
            );
            let pos: usize = route_again(
                p,
                id,
                key,
                Ghost(t2),
                Ghost(own),
                Ghost(lo),
                Ghost(hi),
                Ghost(next),
                Ghost(depth),
                Ghost(t),
                Ghost(m0),
                Ghost(child_id),
                Ghost(right_id),
            );
            proof {
                lemma_safe_borrow(
                    t,
                    t2,
                    m0,
                    p.pages(),
                    own,
                    lo,
                    hi,
                    next,
                    depth,
                    i,
                    i,
                    child_count + 1,
                    kn,
                );
            }
            return (pos, Ghost(t2));
        }
        let (merged, Ghost(t2)) = merge_pair(
            p,
            id,
            &page,
            child_pos,
            child_id,
            &child_page,
            right_id,
            &right_page,
            Ghost(t),
            Ghost(own),
            Ghost(lo),
            Ghost(hi),
            Ghost(next),
            Ghost(depth),
        );
        if merged {
            let pos: usize = route_again(
                p,
                id,
                key,
                Ghost(t2),
                Ghost(own),
                Ghost(lo),
                Ghost(hi),
                Ghost(next),
                Ghost(depth),
                Ghost(t),
                Ghost(m0),
                Ghost(child_id),
                Ghost(right_id),
            );
            proof {
                lemma_safe_merge(t, t2, m0, p.pages(), own, lo, hi, next, depth, i, i, kn);
            }
            return (pos, Ghost(t2));
        }
        proof {
            lemma_unmerged(
                node_of(m0[child_id]),
                node_of(m0[right_id]),
                e[i].0,
                child_header.page_type,
            );
        }
        return (child_pos, Ghost(t));
    }
    if child_pos > 0 {
        proof {
            lemma_child_facts(t, m0, own, lo, hi, next, depth, i - 1);
        }
        let left_id: PageId = child_id_at_pos(bytes, child_pos - 1);
        let left_page = p.read_page(left_id).unwrap();
        let (merged, Ghost(t2)) = merge_pair(
            p,
            id,
            &page,
            child_pos - 1,
            left_id,
            &left_page,
            child_id,
            &child_page,
            Ghost(t),
            Ghost(own),
            Ghost(lo),
            Ghost(hi),
            Ghost(next),
            Ghost(depth),
        );
        if merged {
            let pos: usize = route_again(
                p,
                id,
                key,
                Ghost(t2),
                Ghost(own),
                Ghost(lo),
                Ghost(hi),
                Ghost(next),
                Ghost(depth),
                Ghost(t),
                Ghost(m0),
                Ghost(left_id),
                Ghost(child_id),
            );
            proof {
                lemma_safe_merge(t, t2, m0, p.pages(), own, lo, hi, next, depth, i, i - 1, kn);
            }
            return (pos, Ghost(t2));
        }
        proof {
            lemma_pair_types(t, m0, own, lo, hi, next, depth, i - 1);
            lemma_unmerged(
                node_of(m0[left_id]),
                node_of(m0[child_id]),
                e[i - 1].0,
                child_header.page_type,
            );
        }
    }
    (child_pos, Ghost(t))
}

/// Two pages that are at most half full and do not fit one page are internal
/// pages, and both are half full.
proof fn lemma_unmerged(l: NodeModel, r: NodeModel, sep: Seq<u8>, page_type: u8)
    requires
        page_type == PAGE_TYPE_LEAF || page_type == PAGE_TYPE_INTERNAL,
        l.page_type == page_type,
        r.page_type == page_type,
        entries_sized(l.entries, page_type),
        entries_sized(r.entries, page_type),
        is_key(sep),
        l.entries.len() <= max_keys_of(page_type) / 2,
        r.entries.len() <= max_keys_of(page_type) / 2,
        !encodable(joined(l, r, sep), page_type),
    ensures
        l.entries.len() > least_keys_of(page_type),
        r.entries.len() > least_keys_of(page_type),
{
    lemma_joined_sized(l, r, sep);
    lemma_key_limits(joined(l, r, sep).len() as int, page_type);
}

/// What is known of child `i` and its page.
proof fn lemma_child_facts(
    t: Tree,
    m: Map<PageId, Seq<u8>>,
    own: Set<PageId>,
    lo: int,
    hi: int,
    next: PageId,
    depth: nat,
    i: int,
)
    requires
        t is Node,
        ok(t, m, own, lo, hi, next, depth),
        distinct(t),
        0 <= i < t->Node_kids.len(),
    ensures
        ({
            let e = t.entries();
            let kids = t->Node_kids;
            let c = kids[i];
            let lo1 = bound(e, lo, hi, i);
            let hi1 = bound(e, lo, hi, i + 1);
            &&& kids.len() == e.len() + 1
            &&& ok(c, m, own, lo1, hi1, next_of(kids, next, i), (depth - 1) as nat)
            &&& distinct(c)
            &&& lo <= lo1 < hi1 <= hi
            &&& super::node_page::child_of(node_of(m[t.id()]), i) == c.id()
            &&& m.contains_key(c.id())
            &&& super::node_page::canonical(m[c.id()])
            &&& count_of(m[c.id()]) == c.entries().len()
            &&& node_of(m[c.id()]).entries == c.entries()
            &&& node_of(m[c.id()]).page_type == tree_type(c)
            &&& super::node_page::encodable(c.entries(), tree_type(c))
            &&& has_id(t, c.id())
            &&& c.id() != t.id()
            &&& depth > 0
            &&& c is Leaf <==> depth == 1
        }),
{
    let e = t.entries();
    let kids = t->Node_kids;
    let c = kids[i];
    lemma_top_page(t, m, own, lo, hi, next, depth);
    assert(t == Tree::Node { id: t.id(), entries: e, kids });
    lemma_open_node(t.id(), e, kids);
    lemma_kid(e, kids, m, own, lo, hi, next, depth, i);
    lemma_bounds(e, kids, lo, hi, i);
    lemma_child_of(node_of(m[t.id()]), e, kids, lo, hi, i);
    lemma_top_page(
        c,
        m,
        own,
        bound(e, lo, hi, i),
        bound(e, lo, hi, i + 1),
        next_of(kids, next, i),
        (depth - 1) as nat,
    );
    lemma_canonical_table(m[c.id()]);
    assert(distinct(kids[i]));
    lemma_has_top(c);
    assert(has_id(kids[i], c.id()));
    assert(any_has_id(kids, c.id()));
}

/// Siblings have one page type.
proof fn lemma_pair_types(
    t: Tree,
    m: Map<PageId, Seq<u8>>,
    own: Set<PageId>,
    lo: int,
    hi: int,
    next: PageId,
    depth: nat,
    i: int,
)
    requires
        t is Node,
        ok(t, m, own, lo, hi, next, depth),
        distinct(t),
        0 <= i,
        i + 1 < t->Node_kids.len(),
    ensures
        tree_type(t->Node_kids[i]) == tree_type(t->Node_kids[i + 1]),
        t->Node_kids[i] is Leaf <==> t->Node_kids[i + 1] is Leaf,
{
    lemma_child_facts(t, m, own, lo, hi, next, depth, i);
    lemma_child_facts(t, m, own, lo, hi, next, depth, i + 1);
}

/// Moving one entry from a fuller page to one that is at most half full.
proof fn lemma_move_fits(full: int, low: int, page_type: u8)
    requires
        page_type == PAGE_TYPE_LEAF || page_type == PAGE_TYPE_INTERNAL,
        full > max_keys_of(page_type) / 2,
        0 <= low <= max_keys_of(page_type) / 2,
        HEADER_SIZE + full * (OFFSET_ENTRY_SIZE + entry_size_of(page_type)) <= PAGE_SIZE,
    ensures
        full >= 2,
        ({
            let u = OFFSET_ENTRY_SIZE + entry_size_of(page_type);
            let n = full + low + (if page_type == PAGE_TYPE_LEAF {
                0int
            } else {
                1
            });
            &&& HEADER_SIZE + (full - 1) * u <= PAGE_SIZE
            &&& HEADER_SIZE + (n - (full - 1)) * u <= PAGE_SIZE
            &&& HEADER_SIZE + (low + 1) * u <= PAGE_SIZE
            &&& HEADER_SIZE + (n - (low + 1)) * u <= PAGE_SIZE
        }),
{
    let u = OFFSET_ENTRY_SIZE + entry_size_of(page_type);
    if page_type == PAGE_TYPE_LEAF {
        assert(u == 1078);
        assert(16336int / u == 15) by (nonlinear_arith)
            requires
                u == 1078,
        ;
        assert((full - 1) * u == full * u - u && (low + 1) * u == low * u + u && (low + full - (full
            - 1)) * u == low * u + u && (full + low - (low + 1)) * u == full * u - u && low * u <= 7
            * u) by (nonlinear_arith)
            requires
                0 <= low <= 7,
                u == 1078,
        ;
    } else {
        assert(u == 26);
        assert(16336int / u == 628) by (nonlinear_arith)
            requires
                u == 26,
        ;
        assert((full - 1) * u == full * u - u && (low + 1) * u == low * u + u && (low + full + 1 - (
        full - 1)) * u == low * u + 2 * u && (full + low + 1 - (low + 1)) * u == full * u && low * u
            <= 314 * u) by (nonlinear_arith)
            requires
                0 <= low <= 314,
                u == 26,
        ;
    }
}

/// The place of the child that the key belongs to after the children changed.
fn route_again<P: AsyncPageProvider>(
    p: &P,
    id: PageId,
    key: &[u8],
    Ghost(t2): Ghost<Tree>,
    Ghost(own): Ghost<Set<PageId>>,
    Ghost(lo): Ghost<int>,
    Ghost(hi): Ghost<int>,
    Ghost(next): Ghost<PageId>,
    Ghost(depth): Ghost<nat>,
    Ghost(t): Ghost<Tree>,
    Ghost(m0): Ghost<Map<PageId, Seq<u8>>>,
    Ghost(a): Ghost<PageId>,
    Ghost(b): Ghost<PageId>,
) -> (r: usize)
    requires
        t2 is Node,
        ok(t2, p.pages(), own, lo, hi, next, depth),
        distinct(t2),
        t2.id() == id,
        t.id() == id,
        is_key(key@),
        lo <= be_num(key@) < hi,
        same_but(m0, p.pages(), id, a, b),
        has_id(t, id),
        has_id(t, a),
        has_id(t, b),
        first_leaf(t2) == first_leaf(t),
        forall|x: PageId| #[trigger] has_id(t2, x) ==> has_id(t, x),
    ensures
        r == route(key_nums(t2.entries()), be_num(key@)),
        r < t2->Node_kids.len(),
        reshaped(t, t2, m0, p.pages(), own, lo, hi, next, depth),
{
    let ghost m = p.pages();
    proof {
        lemma_top_page(t2, m, own, lo, hi, next, depth);
        lemma_canonical_table(m[id]);
        lemma_route_bounds(t2.entries(), t2->Node_kids, lo, hi, be_num(key@));
    }
    let page = p.read_page(id).unwrap();
    let pos: usize = child_insert_pos_for_key(page_bytes(&page), key);
    proof {
        lemma_route_unique(key_nums(t2.entries()), be_num(key@), pos as int);
    }
    pos
}

/// A child that was safe stays full enough when it loses an entry.
proof fn lemma_fill_step(t: Tree, t1: Tree, i: int, c2: Tree)
    requires
        t1 is Node,
        0 <= i < t1->Node_kids.len(),
        tree_type(c2) == tree_type(t1->Node_kids[i]),
        well_shaped(t) ==> safe_below(t, t1, i),
        well_shaped(t1->Node_kids[i]) ==> filled(c2) && c2.entries().len() + 1
            >= t1->Node_kids[i].entries().len(),
    ensures
        ({
            let t2 = Tree::Node {
                id: t1.id(),
                entries: t1.entries(),
                kids: spliced_kids(t1->Node_kids, i, 1, seq_one(c2)),
            };
            well_shaped(t) ==> filled(t2) && t2.entries().len() + 1 >= t.entries().len()
        }),
{
    let kids = t1->Node_kids;
    let e = t1.entries();
    if well_shaped(t) {
        assert(t1 == Tree::Node { id: t1.id(), entries: e, kids });
        lemma_filled_node(t1.id(), e, kids);
        lemma_filled_node(t1.id(), e, spliced_kids(kids, i, 1, seq_one(c2)));
        assert(kid_filled(kids[i]));
        lemma_key_limits(0, tree_type(kids[i]));
        assert(seq_one(c2)[0] == c2);
        assert(all_filled(seq_one(c2)));
        lemma_filled_spliced(kids, i, 1, seq_one(c2));
    }
}

/// Takes `key` out of the subtree `t`, below an internal page. Returns the
/// leaf that the key was taken from.
#[verifier::spinoff_prover]
pub fn remove_below<P: AsyncPageProvider>(
    p: &mut P,
    id: PageId,
    key: &[u8],
    Ghost(t): Ghost<Tree>,
    Ghost(own): Ghost<Set<PageId>>,
    Ghost(lo): Ghost<int>,
    Ghost(hi): Ghost<int>,
    Ghost(next): Ghost<PageId>,
    Ghost(depth): Ghost<nat>,
) -> (r: (Option<PageId>, Ghost<Tree>))
    requires
        ok(t, old(p).pages(), own, lo, hi, next, depth),
        distinct(t),
        t.id() == id,
        is_key(key@),
        lo <= be_num(key@) < hi,
    ensures
        sized(old(p).pages()) ==> sized(final(p).pages()),
        final(p).root() == old(p).root(),
        final(p).naming() == old(p).naming(),
        forall|base: Map<PageId, Seq<u8>>| #[trigger]
            old(p).covers(base) ==> final(p).covers(base),
        final(p).next_id() == old(p).next_id(),
        reshaped(t, r.1@, old(p).pages(), final(p).pages(), own, lo, hi, next, depth),
        without(t, r.1@, lo, hi, be_num(key@)),
        r.0 is Some <==> lookup(t, be_num(key@)) is Some,
        r.0 matches Some(leaf) ==> has_id(r.1@, leaf),
        well_shaped(t) ==> filled(r.1@) && r.1@.entries().len() + 1 >= t.entries().len(),
    decreases depth,
{
    let ghost m0 = p.pages();
    let ghost kn = be_num(key@);
    proof {
        lemma_top_page(t, m0, own, lo, hi, next, depth);
        lemma_has_top(t);
    }
    let page = p.read_page(id).unwrap();
    let header = page_header(page_bytes(&page));
    if header.page_type == PAGE_TYPE_LEAF {
        let (found, Ghost(t2)) = remove_in_leaf(
            p,
            id,
            key,
            Ghost(t),
            Ghost(own),
            Ghost(lo),
            Ghost(hi),
            Ghost(next),
        );
        proof {
            lemma_has_top(t2);
            lemma_filled_leaf(t2);
        }
        return match found {
            Some(_) => (Some(id), Ghost(t2)),
            None => (None, Ghost(t2)),
        };
    }
    let (child_pos, Ghost(t1)) = make_child_safe(
        p,
        id,
        key,
        Ghost(t),
        Ghost(own),
        Ghost(lo),
        Ghost(hi),
        Ghost(next),
        Ghost(depth),
    );
    let ghost m1 = p.pages();
    let ghost e = t1.entries();
    let ghost kids = t1->Node_kids;
    let ghost i = child_pos as int;
    let ghost c = kids[i];
    let ghost lo1 = bound(e, lo, hi, i);
    let ghost hi1 = bound(e, lo, hi, i + 1);
    let ghost next1 = next_of(kids, next, i);
    let ghost d1 = (depth - 1) as nat;
    proof {
        assert(t1 == Tree::Node { id, entries: e, kids });
        lemma_top_page(t1, m1, own, lo, hi, next, depth);
        lemma_canonical_table(m1[id]);
        lemma_child_facts(t1, m1, own, lo, hi, next, depth, i);
        lemma_route_bounds(e, kids, lo, hi, kn);
        lemma_open_node(id, e, kids);
        assert(lookup(t1, kn) == lookup(t, kn));
        lemma_lookup_node(id, e, kids, lo, hi);
    }
    let page1 = p.read_page(id).unwrap();
    let child_id: PageId = child_id_at_pos(page_bytes(&page1), child_pos);
    let child_page = p.read_page(child_id).unwrap();
    let child_header = page_header(page_bytes(&child_page));
    if child_header.page_type == PAGE_TYPE_LEAF {
        return remove_from_leaf_child(
            p,
            id,
            &page1,
            child_pos,
            child_id,
            key,
            Ghost(t),
            Ghost(t1),
            Ghost(m0),
            Ghost(own),
            Ghost(lo),
            Ghost(hi),
            Ghost(next),
            Ghost(depth),
        );
    }
    let (leaf, Ghost(c2)) = remove_below(
        p,
        child_id,
        key,
        Ghost(c),
        Ghost(own),
        Ghost(lo1),
        Ghost(hi1),
        Ghost(next1),
        Ghost(d1),
    );
    let ghost m2 = p.pages();
    let ghost t2 = Tree::Node { id, entries: e, kids: spliced_kids(kids, i, 1, seq_one(c2)) };
    proof {
        lemma_below_step(t, t1, i, c2, m0, m1, m2, own, lo, hi, next, depth, kn);
        assert(t2->Node_kids[i] == c2);
        lemma_top_page(c2, m2, own, lo1, hi1, next1, d1);
        lemma_fill_step(t, t1, i, c2);
        if leaf is Some {
            let l = leaf->Some_0;
            super::split::lemma_has_node(id, e, t2->Node_kids, l);
            assert(has_id(t2->Node_kids[i], l));
            assert(any_has_id(t2->Node_kids, l));
        }
    }
    (leaf, Ghost(t2))
}

/// The delete when child `child_pos` of page `id` is the leaf that the key
/// belongs to.
#[verifier::spinoff_prover]
#[verifier::rlimit(40)]
fn remove_from_leaf_child<P: AsyncPageProvider>(
    p: &mut P,
    id: PageId,
    page: &Page,
    child_pos: usize,
    child_id: PageId,
    key: &[u8],
    Ghost(t): Ghost<Tree>,
    Ghost(t1): Ghost<Tree>,
    Ghost(m0): Ghost<Map<PageId, Seq<u8>>>,
    Ghost(own): Ghost<Set<PageId>>,
    Ghost(lo): Ghost<int>,
    Ghost(hi): Ghost<int>,
    Ghost(next): Ghost<PageId>,
    Ghost(depth): Ghost<nat>,
) -> (r: (Option<PageId>, Ghost<Tree>))
    requires
        t1 is Node,
        reshaped(t, t1, m0, old(p).pages(), own, lo, hi, next, depth),
        same_rows(t, t1, lo, hi),
        t.id() == id,
        bytes_view(*page) == old(p).pages()[id],
        is_key(key@),
        lo <= be_num(key@) < hi,
        child_pos < t1->Node_kids.len(),
        child_pos == route(key_nums(t1.entries()), be_num(key@)),
        t1->Node_kids[child_pos as int].id() == child_id,
        t1->Node_kids[child_pos as int] is Leaf,
        well_shaped(t) ==> safe_below(t, t1, child_pos as int),
    ensures
        sized(old(p).pages()) ==> sized(final(p).pages()),
        final(p).root() == old(p).root(),
        final(p).naming() == old(p).naming(),
        forall|base: Map<PageId, Seq<u8>>| #[trigger]
            old(p).covers(base) ==> final(p).covers(base),
        final(p).next_id() == old(p).next_id(),
        reshaped(t, r.1@, m0, final(p).pages(), own, lo, hi, next, depth),
        without(t, r.1@, lo, hi, be_num(key@)),
        r.0 is Some <==> lookup(t, be_num(key@)) is Some,
        r.0 matches Some(leaf) ==> has_id(r.1@, leaf),
        well_shaped(t) ==> filled(r.1@) && r.1@.entries().len() + 1 >= t.entries().len(),
{
    let ghost kn = be_num(key@);
    let ghost m1 = p.pages();
    let ghost e = t1.entries();
    let ghost kids = t1->Node_kids;
    let ghost i = child_pos as int;
    let ghost c = kids[i];
    let ghost lo1 = bound(e, lo, hi, i);
    let ghost hi1 = bound(e, lo, hi, i + 1);
    let ghost next1 = next_of(kids, next, i);
    proof {
        assert(t1 == Tree::Node { id, entries: e, kids });
        lemma_top_page(t1, m1, own, lo, hi, next, depth);
        lemma_child_facts(t1, m1, own, lo, hi, next, depth, i);
        lemma_route_bounds(e, kids, lo, hi, kn);
        lemma_open_node(id, e, kids);
        assert(lookup(t1, kn) == lookup(t, kn));
        lemma_lookup_node(id, e, kids, lo, hi);
        assert(keys_ok(c.entries(), lo1, hi1)) by {
            reveal(ok);
        }
    }
    let (found, Ghost(c2)) = remove_in_leaf(
        p,
        child_id,
        key,
        Ghost(c),
        Ghost(own),
        Ghost(lo1),
        Ghost(hi1),
        Ghost(next1),
    );
    let ghost m2 = p.pages();
    proof {
        assert(!has_id(c, id)) by {
            if has_id(kids[i], id) {
                assert(any_has_id(kids, id));
            }
        }
        assert(m2.contains_key(id) == m1.contains_key(id));
    }
    let ghost t2 = Tree::Node { id, entries: e, kids: spliced_kids(kids, i, 1, seq_one(c2)) };
    proof {
        lemma_below_step(t, t1, i, c2, m0, m1, m2, own, lo, hi, next, depth, kn);
        lemma_has_top(c2);
        lemma_filled_leaf(c2);
        lemma_fill_step(t, t1, i, c2);
        assert(t2->Node_kids[i] == c2);
        super::split::lemma_has_node(id, e, t2->Node_kids, child_id);
        assert(has_id(t2->Node_kids[i], child_id));
        assert(any_has_id(t2->Node_kids, child_id));
    }
    match found {
        None => {
            return (None, Ghost(t2));
        },
        Some(pos) => {
            if child_pos > 0 && pos == 0 {
                let Ghost(t3) = raise_separator(
                    p,
                    id,
                    page,
                    child_pos,
                    child_id,
                    Ghost(t2),
                    Ghost(own),
                    Ghost(lo),
                    Ghost(hi),
                    Ghost(next),
                    Ghost(depth),
                    Ghost(c.entries()),
                );
                let ghost m3 = p.pages();
                proof {
                    lemma_filled_node(id, t2.entries(), t2->Node_kids);
                    lemma_filled_node(id, t3.entries(), t2->Node_kids);
                    assert forall|x: PageId| !has_id(t, x) implies (#[trigger] m3.contains_key(
                        x,
                    ) == m0.contains_key(x)) && m3[x] == m0[x] by {
                        assert(!has_id(t2, x));
                        assert(m3.contains_key(x) == m2.contains_key(x));
                        assert(m2.contains_key(x) == m0.contains_key(x));
                    }
                    assert forall|k: int| lo <= k < hi implies #[trigger] lookup(t3, k) == (
                    if k == kn {
                        None
                    } else {
                        lookup(t, k)
                    }) by {
                        assert(lookup(t3, k) == lookup(t2, k));
                    }
                }
                return (Some(child_id), Ghost(t3));
            }
            return (Some(child_id), Ghost(t2));
        },
    }
}

/// The tree after the delete inside child `i`.
#[verifier::spinoff_prover]
#[verifier::rlimit(40)]
proof fn lemma_below_step(
    t: Tree,
    t1: Tree,
    i: int,
    c2: Tree,
    m0: Map<PageId, Seq<u8>>,
    m1: Map<PageId, Seq<u8>>,
    m2: Map<PageId, Seq<u8>>,
    own: Set<PageId>,
    lo: int,
    hi: int,
    next: PageId,
    depth: nat,
    kn: int,
)
    requires
        t1 is Node,
        reshaped(t, t1, m0, m1, own, lo, hi, next, depth),
        same_rows(t, t1, lo, hi),
        lo <= kn < hi,
        0 <= i < t1->Node_kids.len(),
        i == route(key_nums(t1.entries()), kn),
        reshaped(
            t1->Node_kids[i],
            c2,
            m1,
            m2,
            own,
            bound(t1.entries(), lo, hi, i),
            bound(t1.entries(), lo, hi, i + 1),
            next_of(t1->Node_kids, next, i),
            (depth - 1) as nat,
        ),
        without(
            t1->Node_kids[i],
            c2,
            bound(t1.entries(), lo, hi, i),
            bound(t1.entries(), lo, hi, i + 1),
            kn,
        ),
    ensures
        ({
            let t2 = Tree::Node {
                id: t1.id(),
                entries: t1.entries(),
                kids: spliced_kids(t1->Node_kids, i, 1, seq_one(c2)),
            };
            &&& reshaped(t, t2, m0, m2, own, lo, hi, next, depth)
            &&& without(t, t2, lo, hi, kn)
        }),
{
    let id = t1.id();
    let e = t1.entries();
    let kids = t1->Node_kids;
    let c = kids[i];
    let lo1 = bound(e, lo, hi, i);
    let hi1 = bound(e, lo, hi, i + 1);
    let next1 = next_of(kids, next, i);
    let d1 = (depth - 1) as nat;
    let n0 = 0x1_0000_0000_0000_0000int;
    assert(t1 == Tree::Node { id, entries: e, kids });
    lemma_child_facts(t1, m1, own, lo, hi, next, depth, i);
    lemma_one_kid(c2, m2, own, lo1, hi1, next1, d1);
    assert(own_below(own, n0));
    assert forall|x: PageId| !has_id(kids[i], x) && x < n0 implies (#[trigger] m2.contains_key(x)
        == m1.contains_key(x)) && m2[x] == m1[x] by {
        assert(!has_id(c, x));
    }
    lemma_descend_step(t1, id, e, kids, i, c2, m1, m2, own, own, lo, hi, next, depth, n0);
    let t2 = Tree::Node { id, entries: e, kids: spliced_kids(kids, i, 1, seq_one(c2)) };
    lemma_open_node(id, e, kids);
    lemma_top_page(t1, m1, own, lo, hi, next, depth);
    lemma_lookup_node(id, e, kids, lo, hi);
    lemma_route_bounds(e, kids, lo, hi, kn);
    assert forall|x: PageId| !has_id(t, x) implies (#[trigger] m2.contains_key(x)
        == m0.contains_key(x)) && m2[x] == m0[x] by {
        assert(!has_id(t1, x));
        assert(!has_id(c, x)) by {
            if has_id(kids[i], x) {
                assert(any_has_id(kids, x));
            }
        }
        assert(m2.contains_key(x) == m1.contains_key(x));
        assert(m1.contains_key(x) == m0.contains_key(x));
    }
    assert forall|k: int| lo <= k < hi implies #[trigger] lookup(t2, k) == (if k == kn {
        None
    } else {
        lookup(t, k)
    }) by {
        assert(lookup(t1, k) == lookup(t, k));
        if lo1 <= k < hi1 {
            lemma_route_from_bounds(e, kids, lo, hi, k, i);
            assert(lookup(t1, k) == lookup(c, k));
        }
    }
}

/// The subtree in which the separator before child `i` is the child's first key.
pub open spec fn separator_raised(t: Tree, i: int) -> Tree {
    let e = t.entries();
    let c = t->Node_kids[i];
    if c.entries().len() > 0 {
        Tree::Node {
            id: t.id(),
            entries: e.update(i - 1, (c.entries()[0].0, e[i - 1].1)),
            kids: t->Node_kids,
        }
    } else {
        t
    }
}

/// After the first key of leaf `child_pos` was taken out: the separator below
/// it becomes its new first key, and so does the high key of the leaf before.
#[verifier::spinoff_prover]
#[verifier::rlimit(40)]
fn raise_separator<P: AsyncPageProvider>(
    p: &mut P,
    id: PageId,
    page: &Page,
    child_pos: usize,
    child_id: PageId,
    Ghost(t): Ghost<Tree>,
    Ghost(own): Ghost<Set<PageId>>,
    Ghost(lo): Ghost<int>,
    Ghost(hi): Ghost<int>,
    Ghost(next): Ghost<PageId>,
    Ghost(depth): Ghost<nat>,
    Ghost(before): Ghost<Entries>,
) -> (r: Ghost<Tree>)
    requires
        t is Node,
        ok(t, old(p).pages(), own, lo, hi, next, depth),
        distinct(t),
        t.id() == id,
        bytes_view(*page) == old(p).pages()[id],
        0 < child_pos < t->Node_kids.len(),
        t->Node_kids[child_pos as int].id() == child_id,
        t->Node_kids[child_pos as int] is Leaf,
        before.len() > 0,
        keys_ok(
            before,
            bound(t.entries(), lo, hi, child_pos as int),
            bound(t.entries(), lo, hi, child_pos + 1),
        ),
        t->Node_kids[child_pos as int].entries() == before.remove(0),
    ensures
        sized(old(p).pages()) ==> sized(final(p).pages()),
        final(p).root() == old(p).root(),
        final(p).naming() == old(p).naming(),
        forall|base: Map<PageId, Seq<u8>>| #[trigger]
            old(p).covers(base) ==> final(p).covers(base),
        final(p).next_id() == old(p).next_id(),
        reshaped(t, r@, old(p).pages(), final(p).pages(), own, lo, hi, next, depth),
        same_rows(t, r@, lo, hi),
        has_id(t, child_id) ==> has_id(r@, child_id),
        r@ == separator_raised(t, child_pos as int),
{
    let ghost m0 = p.pages();
    let ghost e = t.entries();
    let ghost kids = t->Node_kids;
    let ghost i = child_pos - 1;
    let ghost c = kids[child_pos as int];
    let ghost l = kids[i];
    let ghost lo1 = bound(e, lo, hi, i);
    let ghost s = be_num(e[i].0);
    let ghost hi1 = bound(e, lo, hi, i + 2);
    let ghost next1 = next_of(kids, next, i + 1);
    let ghost d1 = (depth - 1) as nat;
    proof {
        assert(t == Tree::Node { id, entries: e, kids });
        lemma_top_page(t, m0, own, lo, hi, next, depth);
        lemma_canonical_table(m0[id]);
        lemma_child_facts(t, m0, own, lo, hi, next, depth, child_pos as int);
        lemma_child_facts(t, m0, own, lo, hi, next, depth, i);
        lemma_open_node(id, e, kids);
    }
    let child_page = p.read_page(child_id).unwrap();
    let new_first = match super::chain::first_key(&child_page) {
        Some(k) => k,
        None => {
            return Ghost(t);
        },
    };
    let ghost f = be_num(new_first@);
    let bytes = page_bytes(page);
    let header = page_header(bytes);
    let mut parent_entries = collect_entries(bytes);
    let (_, link) = parent_entries.remove(child_pos - 1);
    parent_entries.insert(child_pos - 1, (copy_bytes(&new_first), link));
    let left_id: PageId = child_id_at_pos(bytes, child_pos - 1);
    let mut parent_buf = copy_bytes(bytes);
    let ghost mid = lone((new_first@, e[i].1));
    let ghost e2 = spliced_entries(e, i, 2, mid);
    proof {
        lemma_leaf_remove(before, 0, s, hi1);
        assert(c.entries()[0].0 == new_first@);
        assert(entries_view(parent_entries@) =~= e2);
        assert(e2 =~= e.update(i, (new_first@, e[i].1)));
        assert forall|j: int| 0 <= j < e2.len() implies is_key((#[trigger] e2[j]).0)
            && e2[j].1.len() == 8 by {
            if j != i {
                assert(e2[j] == e[j]);
            }
        }
    }
    let enc = encode_entries(&mut parent_buf, &parent_entries, header);
    let ghost pb = parent_buf@;
    p.write_page(id, page_from_vec(parent_buf));
    let left_page = p.read_page(left_id).unwrap();
    super::chain::write_high_key(p, left_id, &left_page, Some(new_first));
    let ghost m2 = p.pages();
    let ghost t2 = Tree::Node { id, entries: e2, kids: spliced_kids(kids, i, 2, two(l, c)) };
    proof {
        assert(m2[id] == pb);
        assert(same_but(m0, m2, id, left_id, child_id));
        lemma_next_of(kids, next, i);
        lemma_leaf_tree(l.id(), l.entries());
        lemma_leaf_tree(c.id(), c.entries());
        assert(l == Tree::Leaf { id: l.id(), entries: l.entries() });
        assert(c == Tree::Leaf { id: c.id(), entries: c.entries() });
        assert(link_at(e, kids, i));
        assert(u64_at(e[i].1, 0) == c.id()) by {
            reveal(link_at);
        }
        assert(left_id != child_id) by {
            assert(has_id(kids[i], left_id));
            if left_id == child_id {
                assert(has_id(kids[i + 1], left_id));
            }
        }
        assert(m2[child_id] == m0[child_id]) by {
            assert(m2.contains_key(child_id) == m0.contains_key(child_id));
        }
        assert(ok(l, m2, own, lo1, f, c.id(), 0) && ok(c, m2, own, f, hi1, next1, 0)) by {
            reveal(ok);
        }
        lemma_two_kids((new_first@, e[i].1), l, c, m2, own, lo1, hi1, next1, d1);
        assert(keys_ok(l.entries(), lo1, s)) by {
            reveal(ok);
        }
        lemma_raise_rows(l, c, s, f, lo1, hi1, mid);
        super::rebalance::lemma_pair_step(
            t,
            i,
            mid,
            two(l, c),
            m0,
            m2,
            own,
            lo,
            hi,
            next,
            depth,
        );
        lemma_has_top(t);
        let k2 = t2->Node_kids;
        assert(k2[i + 1] == c);
        super::split::lemma_has_node(id, e2, k2, child_id);
        assert(has_id(k2[i + 1], child_id));
        assert(any_has_id(k2, child_id));
        assert forall|x: PageId| !has_id(t, x) implies (#[trigger] m2.contains_key(x)
            == m0.contains_key(x)) && m2[x] == m0[x] by {}
        assert(k2 =~= kids);
    }
    Ghost(t2)
}

/// Raising the separator up to the first key of the right leaf moves no row.
proof fn lemma_raise_rows(l: Tree, c: Tree, s: int, f: int, lo1: int, hi1: int, mid: Entries)
    requires
        l is Leaf,
        c is Leaf,
        s <= f,
        keys_ok(l.entries(), lo1, s),
        keys_ok(c.entries(), f, hi1),
        mid.len() == 1,
        be_num(mid[0].0) == f,
        forall|k: int|
            lo1 <= k < hi1 ==> #[trigger] lookup_kids(mid, two(l, c), k) == (if k < f {
                lookup(l, k)
            } else {
                lookup(c, k)
            }),
    ensures
        forall|k: int|
            lo1 <= k < hi1 ==> #[trigger] lookup_kids(mid, two(l, c), k) == (if k < s {
                lookup(l, k)
            } else {
                lookup(c, k)
            }),
{
    lemma_leaf_tree(l.id(), l.entries());
    lemma_leaf_tree(c.id(), c.entries());
    assert(l == Tree::Leaf { id: l.id(), entries: l.entries() });
    assert(c == Tree::Leaf { id: c.id(), entries: c.entries() });
    assert forall|k: int| lo1 <= k < hi1 implies #[trigger] lookup_kids(mid, two(l, c), k) == (
    if k < s {
        lookup(l, k)
    } else {
        lookup(c, k)
    }) by {
        if s <= k < f {
            assert(leaf_get(l.entries(), k) is None);
            assert(leaf_get(c.entries(), k) is None);
            assert(lookup(l, k) == leaf_get(l.entries(), k));
            assert(lookup(c, k) == leaf_get(c.entries(), k));
        }
    }
}

} // verus!
