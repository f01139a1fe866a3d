//! Evening out two neighbouring pages before a delete descends.
use vstd::prelude::*;

use super::chain::sized;
use super::insert::lemma_kid;
use super::node_page::{canonical, collect_entries, decode_child_id, encodable, encode_child_id,
    encode_entries, entries_sized, entries_view, entry_size_of, key_to_high_key,
    lemma_canonical_table, node_of, page_header, value_size_of, NodeModel, HEADER_SIZE,
    OFFSET_ENTRY_SIZE, PAGE_TYPE_INTERNAL, PAGE_TYPE_LEAF};
use super::provider::AsyncPageProvider;
use super::shape::{all_filled, filled, kid_filled, least_keys_of, lemma_fill_merged, lemma_fill_pair,
    lemma_fill_shared, lemma_filled_leaf, lemma_filled_node};
use super::split::{lemma_leaf_tree, lemma_lookup_node, lemma_make_node, lemma_one_kid,
    lemma_open_node, lemma_replace, lemma_top_page, lemma_two_kids, lone, seq_one, tree_type, two};
use super::tree_lemmas::{lemma_cut, lemma_cut_leaf, lemma_join, lemma_join_leaf, lookup_kids,
    spliced_entries, spliced_kids};
use super::tree_model::{any_has_id, bound, distinct, first_leaf, has_id, keys_ok, kids_distinct,
    kids_ok, leaf_get, leaf_page_ok, lemma_bounds, lemma_frame, lemma_has_top, lemma_ids_owned,
    lemma_next_of, lemma_route_from_bounds, link_at, lookup, next_of, node_page_ok, ok, Entries,
    Tree};
use crate::common::{bytes_view, page_bytes, page_from_vec, Page, PageId, PAGE_SIZE};
use crate::key_order::{be_num, is_key};
use crate::layout::{copy_bytes, le8, u64_at};

verus! {

/// Only pages `a`, `b` and `c` may differ.
pub open spec fn same_but(
    m: Map<PageId, Seq<u8>>,
    m2: Map<PageId, Seq<u8>>,
    a: PageId,
    b: PageId,
    c: PageId,
) -> bool {
    forall|x: PageId|
        x != a && x != b && x != c ==> (#[trigger] m2.contains_key(x) == m.contains_key(x))
            && m2[x] == m[x]
}

/// Subtrees whose pages did not change stay as they are.
pub proof fn lemma_kids_same(
    e: Entries,
    kids: Seq<Tree>,
    m: Map<PageId, Seq<u8>>,
    m2: Map<PageId, Seq<u8>>,
    own: Set<PageId>,
    lo: int,
    hi: int,
    next: PageId,
    depth: nat,
)
    requires
        kids_ok(e, kids, m, own, lo, hi, next, depth),
        forall|x: PageId| #[trigger] any_has_id(kids, x) ==> m2.contains_key(x) && m2[x] == m[x],
    ensures
        kids_ok(e, kids, m2, own, lo, hi, next, depth),
{
    assert forall|i: int| #![trigger kids[i]] 0 <= i < kids.len() implies ok(
        kids[i],
        m2,
        own,
        bound(e, lo, hi, i),
        bound(e, lo, hi, i + 1),
        next_of(kids, next, i),
        (depth - 1) as nat,
    ) by {
        assert forall|x: PageId| #[trigger] has_id(kids[i], x) implies m2.contains_key(x) && m2[x]
            == m[x] by {
            assert(any_has_id(kids, x));
        }
        lemma_frame(
            kids[i],
            m,
            m2,
            own,
            own,
            bound(e, lo, hi, i),
            bound(e, lo, hi, i + 1),
            next_of(kids, next, i),
            (depth - 1) as nat,
        );
    }
}

/// The entries of two neighbouring pages in one list. Between those of
/// internal pages stands the separator with the right page's leftmost child.
pub open spec fn joined(l: NodeModel, r: NodeModel, sep: Seq<u8>) -> Entries {
    if l.page_type == PAGE_TYPE_LEAF {
        l.entries + r.entries
    } else {
        l.entries.push((sep, le8(r.left_child as int))) + r.entries
    }
}

/// What is known of two neighbouring children `i` and `i + 1`.
pub open spec fn neighbours(
    t: Tree,
    m: Map<PageId, Seq<u8>>,
    own: Set<PageId>,
    lo: int,
    hi: int,
    next: PageId,
    depth: nat,
    i: int,
) -> bool {
    &&& t is Node
    &&& ok(t, m, own, lo, hi, next, depth)
    &&& distinct(t)
    &&& 0 <= i
    &&& i + 1 < t->Node_kids.len()
}

/// The facts about two neighbouring children that every step below needs.
proof fn lemma_neighbours(
    t: Tree,
    m: Map<PageId, Seq<u8>>,
    own: Set<PageId>,
    lo: int,
    hi: int,
    next: PageId,
    depth: nat,
    i: int,
)
    requires
        neighbours(t, m, own, lo, hi, next, depth, i),
    ensures
        ({
            let e = t.entries();
            let kids = t->Node_kids;
            let l = kids[i];
            let r = kids[i + 1];
            let s = be_num(e[i].0);
            let d1 = (depth - 1) as nat;
            &&& t == Tree::Node { id: t.id(), entries: e, kids }
            &&& depth > 0
            &&& kids_ok(e, kids, m, own, lo, hi, next, depth)
            &&& kids.len() == e.len() + 1
            &&& is_key(e[i].0)
            &&& bound(e, lo, hi, i) < s < bound(e, lo, hi, i + 2)
            &&& lo <= bound(e, lo, hi, i)
            &&& bound(e, lo, hi, i + 2) <= hi
            &&& bound(e, lo, hi, i + 1) == s
            &&& ok(l, m, own, bound(e, lo, hi, i), s, first_leaf(r), d1)
            &&& ok(r, m, own, s, bound(e, lo, hi, i + 2), next_of(kids, next, i + 1), d1)
            &&& distinct(l)
            &&& distinct(r)
            &&& u64_at(e[i].1, 0) == r.id()
            &&& forall|x: PageId| #[trigger] has_id(l, x) ==> !has_id(r, x)
            &&& !has_id(l, t.id())
            &&& !has_id(r, t.id())
            &&& l.id() != r.id()
            &&& l.id() != t.id()
            &&& r.id() != t.id()
            &&& tree_type(l) == tree_type(r)
            &&& l is Leaf <==> r is Leaf
        }),
{
    let e = t.entries();
    let kids = t->Node_kids;
    let l = kids[i];
    let r = kids[i + 1];
    let d1 = (depth - 1) as nat;
    lemma_top_page(t, m, own, lo, hi, next, depth);
    assert(t == Tree::Node { id: t.id(), entries: e, kids });
    lemma_open_node(t.id(), e, kids);
    lemma_kid(e, kids, m, own, lo, hi, next, depth, i);
    lemma_kid(e, kids, m, own, lo, hi, next, depth, i + 1);
    lemma_next_of(kids, next, i);
    lemma_bounds(e, kids, lo, hi, i);
    lemma_bounds(e, kids, lo, hi, i + 1);
    assert(link_at(e, kids, i));
    reveal(link_at);
    lemma_top_page(l, m, own, bound(e, lo, hi, i), bound(e, lo, hi, i + 1), first_leaf(r), d1);
    lemma_top_page(
        r,
        m,
        own,
        bound(e, lo, hi, i + 1),
        bound(e, lo, hi, i + 2),
        next_of(kids, next, i + 1),
        d1,
    );
    assert(distinct(kids[i]) && distinct(kids[i + 1]));
    assert forall|x: PageId| #[trigger] has_id(l, x) implies !has_id(r, x) by {
        assert(has_id(kids[i], x));
    }
    lemma_has_top(l);
    lemma_has_top(r);
    if has_id(kids[i], t.id()) {
        assert(any_has_id(kids, t.id()));
    }
    if has_id(kids[i + 1], t.id()) {
        assert(any_has_id(kids, t.id()));
    }
}

/// Two neighbouring children replaced by one or two made of their pages.
pub proof fn lemma_pair_step(
    t: Tree,
    i: int,
    mid: Entries,
    cs: Seq<Tree>,
    m: Map<PageId, Seq<u8>>,
    m2: Map<PageId, Seq<u8>>,
    own: Set<PageId>,
    lo: int,
    hi: int,
    next: PageId,
    depth: nat,
)
    requires
        neighbours(t, m, own, lo, hi, next, depth, i),
        kids_ok(
            mid,
            cs,
            m2,
            own,
            bound(t.entries(), lo, hi, i),
            bound(t.entries(), lo, hi, i + 2),
            next_of(t->Node_kids, next, i + 1),
            depth,
        ),
        kids_distinct(cs),
        first_leaf(cs[0]) == first_leaf(t->Node_kids[i]),
        cs[0].id() == t->Node_kids[i].id(),
        forall|x: PageId|
            #[trigger] any_has_id(cs, x) ==> has_id(t->Node_kids[i], x) || has_id(
                t->Node_kids[i + 1],
                x,
            ),
        same_but(m, m2, t.id(), t->Node_kids[i].id(), t->Node_kids[i + 1].id()),
        node_page_ok(
            m2,
            own,
            t.id(),
            spliced_entries(t.entries(), i, 2, mid),
            t->Node_kids[0].id(),
        ),
        forall|k: int|
            bound(t.entries(), lo, hi, i) <= k < bound(t.entries(), lo, hi, i + 2)
                ==> #[trigger] lookup_kids(mid, cs, k) == (if k < be_num(t.entries()[i].0) {
                lookup(t->Node_kids[i], k)
            } else {
                lookup(t->Node_kids[i + 1], k)
            }),
    ensures
        ({
            let t2 = Tree::Node {
                id: t.id(),
                entries: spliced_entries(t.entries(), i, 2, mid),
                kids: spliced_kids(t->Node_kids, i, 2, cs),
            };
            &&& ok(t2, m2, own, lo, hi, next, depth)
            &&& distinct(t2)
            &&& first_leaf(t2) == first_leaf(t)
            &&& forall|x: PageId| #[trigger] has_id(t2, x) ==> has_id(t, x)
            &&& forall|k: int| lo <= k < hi ==> #[trigger] lookup(t2, k) == lookup(t, k)
        }),
{
    let id = t.id();
    let e = t.entries();
    let kids = t->Node_kids;
    let lo1 = bound(e, lo, hi, i);
    let hi1 = bound(e, lo, hi, i + 2);
    lemma_neighbours(t, m, own, lo, hi, next, depth, i);
    lemma_open_node(id, e, kids);
    lemma_has_top(kids[i]);
    lemma_has_top(kids[i + 1]);
    let seg = kids.subrange(i, i + 2);
    assert(seg[0] == kids[i] && seg[1] == kids[i + 1]);
    assert forall|x: PageId| #[trigger] any_has_id(cs, x) implies x != id && (any_has_id(seg, x)
        || !any_has_id(kids, x)) && has_id(t, x) by {
        if has_id(kids[i], x) {
            assert(has_id(seg[0], x));
        } else {
            assert(has_id(seg[1], x));
        }
        assert(any_has_id(kids, x));
    }
    assert forall|q: int, x: PageId|
        0 <= q < kids.len() && !(i <= q < i + 2) && #[trigger] has_id(
            kids[q],
            x,
        ) implies m2.contains_key(x) && m2[x] == m[x] by {
        assert(any_has_id(kids, x));
        assert(has_id(t, x));
        lemma_ids_owned(t, m, own, lo, hi, next, depth, x);
        assert(!has_id(kids[i], x) && !has_id(kids[i + 1], x)) by {
            if q < i {
                assert(!has_id(kids[i], x));
                assert(!has_id(kids[i + 1], x));
            } else {
                if has_id(kids[i], x) {
                    assert(!has_id(kids[q], x));
                }
                if has_id(kids[i + 1], x) {
                    assert(!has_id(kids[q], x));
                }
            }
        }
        assert(m2.contains_key(x) == m.contains_key(x));
    }
    lemma_replace(id, e, kids, i, 2, mid, cs, m, m2, own, own, lo, hi, next, depth);
    let t2 = Tree::Node {
        id,
        entries: spliced_entries(e, i, 2, mid),
        kids: spliced_kids(kids, i, 2, cs),
    };
    lemma_lookup_node(id, e, kids, lo, hi);
    assert forall|k: int| lo <= k < hi implies #[trigger] lookup(t2, k) == lookup(t, k) by {
        if lo1 <= k < hi1 {
            let s = be_num(e[i].0);
            if k < s {
                lemma_route_from_bounds(e, kids, lo, hi, k, i);
            } else {
                lemma_route_from_bounds(e, kids, lo, hi, k, i + 1);
            }
            assert(lookup(t, k) == lookup_kids(e, kids, k));
            assert(lookup_kids(mid, cs, k) == (if k < s {
                lookup(kids[i], k)
            } else {
                lookup(kids[i + 1], k)
            }));
        }
    }
}

/// The joined children of two neighbouring internal pages, in the new pages.
proof fn lemma_joined_kids(
    t: Tree,
    i: int,
    m: Map<PageId, Seq<u8>>,
    m2: Map<PageId, Seq<u8>>,
    own: Set<PageId>,
    lo: int,
    hi: int,
    next: PageId,
    depth: nat,
)
    requires
        neighbours(t, m, own, lo, hi, next, depth, i),
        t->Node_kids[i] is Node,
        same_but(m, m2, t.id(), t->Node_kids[i].id(), t->Node_kids[i + 1].id()),
    ensures
        ({
            let l = t->Node_kids[i];
            let r = t->Node_kids[i + 1];
            let sep = (t.entries()[i].0, le8(r->Node_kids[0].id() as int));
            let je = l.entries().push(sep) + r.entries();
            let jk = l->Node_kids + r->Node_kids;
            let lo1 = bound(t.entries(), lo, hi, i);
            let hi1 = bound(t.entries(), lo, hi, i + 2);
            &&& r is Node
            &&& depth > 1
            &&& l->Node_kids.len() == l.entries().len() + 1
            &&& r->Node_kids.len() > 0
            &&& kids_ok(
                je,
                jk,
                m2,
                own,
                lo1,
                hi1,
                next_of(t->Node_kids, next, i + 1),
                (depth - 1) as nat,
            )
            &&& kids_distinct(jk)
            &&& first_leaf(jk[0]) == first_leaf(l)
            &&& jk[0] == l->Node_kids[0]
            &&& forall|x: PageId|
                #[trigger] any_has_id(jk, x) ==> (has_id(l, x) || has_id(r, x)) && x != l.id() && x
                    != r.id()
            &&& forall|k: int|
                lo1 <= k < hi1 ==> #[trigger] lookup_kids(je, jk, k) == (if k < be_num(
                    t.entries()[i].0,
                ) {
                    lookup(l, k)
                } else {
                    lookup(r, k)
                })
        }),
{
    let e = t.entries();
    let kids = t->Node_kids;
    let l = kids[i];
    let r = kids[i + 1];
    let s = be_num(e[i].0);
    let lo1 = bound(e, lo, hi, i);
    let hi1 = bound(e, lo, hi, i + 2);
    let next1 = next_of(kids, next, i + 1);
    let d1 = (depth - 1) as nat;
    lemma_neighbours(t, m, own, lo, hi, next, depth, i);
    lemma_top_page(l, m, own, lo1, s, first_leaf(r), d1);
    lemma_top_page(r, m, own, s, hi1, next1, d1);
    let e1 = l.entries();
    let k1 = l->Node_kids;
    let e2 = r.entries();
    let k2 = r->Node_kids;
    assert(l == Tree::Node { id: l.id(), entries: e1, kids: k1 });
    assert(r == Tree::Node { id: r.id(), entries: e2, kids: k2 });
    lemma_open_node(l.id(), e1, k1);
    lemma_open_node(r.id(), e2, k2);
    lemma_lookup_node(l.id(), e1, k1, lo1, s);
    lemma_lookup_node(r.id(), e2, k2, s, hi1);
    lemma_has_top(l);
    lemma_has_top(r);
    assert forall|x: PageId| #[trigger] any_has_id(k1, x) implies m2.contains_key(x) && m2[x]
        == m[x] by {
        assert(has_id(l, x));
        lemma_ids_owned(l, m, own, lo1, s, first_leaf(r), d1, x);
        assert(m2.contains_key(x) == m.contains_key(x));
    }
    assert forall|x: PageId| #[trigger] any_has_id(k2, x) implies m2.contains_key(x) && m2[x]
        == m[x] by {
        assert(has_id(r, x));
        lemma_ids_owned(r, m, own, s, hi1, next1, d1, x);
        assert(!has_id(l, x));
        assert(m2.contains_key(x) == m.contains_key(x));
    }
    lemma_kids_same(e1, k1, m, m2, own, lo1, s, first_leaf(r), d1);
    lemma_kids_same(e2, k2, m, m2, own, s, hi1, next1, d1);
    let sep = (e[i].0, le8(k2[0].id() as int));
    crate::layout::lemma_le8(k2[0].id() as int);
    lemma_join(e1, k1, sep, e2, k2, m2, own, lo1, hi1, next1, d1);
    let je = e1.push(sep) + e2;
    let jk = k1 + k2;
    assert(jk[0] == k1[0]);
    let n1 = k1.len() as int;
    assert forall|p: int| #![trigger jk[p]] 0 <= p < jk.len() implies distinct(jk[p]) by {
        if p < n1 {
            assert(jk[p] == k1[p]);
        } else {
            assert(jk[p] == k2[p - n1]);
        }
    }
    assert forall|p: int, q: int, x: PageId|
        0 <= p < q < jk.len() && #[trigger] has_id(jk[p], x) implies !(#[trigger] has_id(
        jk[q],
        x,
    )) by {
        if q < n1 {
            assert(jk[p] == k1[p] && jk[q] == k1[q]);
        } else if p >= n1 {
            assert(jk[p] == k2[p - n1] && jk[q] == k2[q - n1]);
        } else {
            assert(jk[p] == k1[p] && jk[q] == k2[q - n1]);
            assert(any_has_id(k1, x));
            assert(has_id(l, x));
            if has_id(jk[q], x) {
                assert(has_id(k2[q - n1], x));
                assert(any_has_id(k2, x));
                assert(has_id(r, x));
            }
        }
    }
    assert forall|x: PageId| #[trigger] any_has_id(jk, x) implies (has_id(l, x) || has_id(r, x))
        && x != l.id() && x != r.id() by {
        let p = choose|p: int| 0 <= p < jk.len() && #[trigger] has_id(jk[p], x);
        if p < n1 {
            assert(has_id(k1[p], x));
            assert(any_has_id(k1, x));
            assert(has_id(l, x));
        } else {
            assert(has_id(k2[p - n1], x));
            assert(any_has_id(k2, x));
            assert(has_id(r, x));
        }
    }
    assert forall|k: int| lo1 <= k < hi1 implies #[trigger] lookup_kids(je, jk, k) == (if k < s {
        lookup(l, k)
    } else {
        lookup(r, k)
    }) by {
        if k < s {
            assert(lookup(l, k) == lookup_kids(e1, k1, k));
        } else {
            assert(lookup(r, k) == lookup_kids(e2, k2, k));
        }
    }
}

/// Moves entries between the neighbouring children `i` and `i + 1` of page
/// `id`, so that the left one keeps `cut` entries. The separator between them
/// becomes the first key of the right leaf, or the key at `cut` of the joined
/// entries of two internal pages.
#[verifier::spinoff_prover]
#[verifier::rlimit(60)]
pub fn redistribute<P: AsyncPageProvider>(
    p: &mut P,
    id: PageId,
    page: &Page,
    i: usize,
    left_id: PageId,
    left_page: &Page,
    right_id: PageId,
    right_page: &Page,
    cut: usize,
    Ghost(t): Ghost<Tree>,
    Ghost(own): Ghost<Set<PageId>>,
    Ghost(lo): Ghost<int>,
    Ghost(hi): Ghost<int>,
    Ghost(next): Ghost<PageId>,
    Ghost(depth): Ghost<nat>,
) -> (r: Ghost<Tree>)
    requires
        neighbours(t, old(p).pages(), own, lo, hi, next, depth, i as int),
        t.id() == id,
        bytes_view(*page) == old(p).pages()[id],
        t->Node_kids[i as int].id() == left_id,
        t->Node_kids[i + 1].id() == right_id,
        bytes_view(*left_page) == old(p).pages()[left_id],
        bytes_view(*right_page) == old(p).pages()[right_id],
        0 < cut,
        ({
            let l = t->Node_kids[i as int];
            let r = t->Node_kids[i + 1];
            let n = l.entries().len() + r.entries().len() + (if l is Leaf {
                0int
            } else {
                1
            });
            let u = OFFSET_ENTRY_SIZE + entry_size_of(tree_type(l));
            &&& cut < n
            &&& HEADER_SIZE + cut * u <= PAGE_SIZE
            &&& HEADER_SIZE + (n - cut) * u <= PAGE_SIZE
        }),
    ensures
        sized(old(p).pages()) ==> sized(final(p).pages()),
        final(p).root() == old(p).root(),
        final(p).naming() == old(p).naming(),
        forall|base: Map<PageId, Seq<u8>>| #[trigger]
            old(p).covers(base) ==> final(p).covers(base),
        final(p).next_id() == old(p).next_id(),
        same_but(old(p).pages(), final(p).pages(), id, left_id, right_id),
        ok(r@, final(p).pages(), own, lo, hi, next, depth),
        distinct(r@),
        r@ is Node,
        r@.id() == id,
        first_leaf(r@) == first_leaf(t),
        forall|x: PageId| #[trigger] has_id(r@, x) ==> has_id(t, x),
        forall|k: int| lo <= k < hi ==> #[trigger] lookup(r@, k) == lookup(t, k),
        r@.entries().len() == t.entries().len(),
        r@->Node_kids.len() == t->Node_kids.len(),
        forall|j: int|
            0 <= j < t->Node_kids.len() ==> (#[trigger] r@->Node_kids[j]).id()
                == t->Node_kids[j].id(),
        ({
            let (l, rr) = (t->Node_kids[i as int], t->Node_kids[i + 1]);
            let je = joined(
                node_of(old(p).pages()[left_id]),
                node_of(old(p).pages()[right_id]),
                t.entries()[i as int].0,
            );
            &&& r@.entries() == t.entries().update(i as int, (je[cut as int].0, t.entries()[i as int].1))
            &&& r@->Node_kids[i as int].entries() == je.take(cut as int)
            &&& r@->Node_kids[i + 1].entries() == (if l is Leaf {
                je.skip(cut as int)
            } else {
                je.skip(cut + 1)
            })
            &&& tree_type(r@->Node_kids[i as int]) == tree_type(l)
            &&& tree_type(r@->Node_kids[i + 1]) == tree_type(l)
            &&& filled(t) && cut >= least_keys_of(tree_type(l)) && r@->Node_kids[i
                + 1].entries().len() >= least_keys_of(tree_type(l)) ==> filled(r@)
        }),
{
    let ghost m0 = p.pages();
    let ghost e = t.entries();
    let ghost kids = t->Node_kids;
    let ghost ii = i as int;
    let ghost l = kids[ii];
    let ghost r = kids[ii + 1];
    let ghost s = be_num(e[ii].0);
    let ghost lo1 = bound(e, lo, hi, ii);
    let ghost hi1 = bound(e, lo, hi, ii + 2);
    let ghost next1 = next_of(kids, next, ii + 1);
    let ghost d1 = (depth - 1) as nat;
    proof {
        lemma_neighbours(t, m0, own, lo, hi, next, depth, ii);
        lemma_top_page(t, m0, own, lo, hi, next, depth);
        lemma_top_page(l, m0, own, lo1, s, first_leaf(r), d1);
        lemma_top_page(r, m0, own, s, hi1, next1, d1);
        lemma_canonical_table(m0[id]);
        lemma_canonical_table(m0[left_id]);
        lemma_canonical_table(m0[right_id]);
    }
    let ghost nl = node_of(m0[left_id]);
    let ghost nr = node_of(m0[right_id]);
    let ghost je = joined(nl, nr, e[ii].0);
    let header = page_header(page_bytes(page));
    let left_bytes = page_bytes(left_page);
    let right_bytes = page_bytes(right_page);
    let mut left_header = page_header(left_bytes);
    let mut right_header = page_header(right_bytes);
    let mut parent_entries = collect_entries(page_bytes(page));
    let mut left_entries = collect_entries(left_bytes);
    let mut right_entries = collect_entries(right_bytes);
    let is_leaf: bool = left_header.page_type == PAGE_TYPE_LEAF;
    let (old_sep, link) = parent_entries.remove(i);
    if !is_leaf {
        left_entries.push((old_sep, encode_child_id(right_header.left_child)));
    }
    left_entries.append(&mut right_entries);
    proof {
        assert(entries_view(left_entries@) =~= je);
        lemma_joined_sized(nl, nr, e[ii].0);
    }
    let mut tail = left_entries.split_off(cut);
    let ghost sepk = je[cut as int].0;
    let new_sep = copy_bytes(tail[0].0.as_slice());
    assert(tail@[0] == (left_entries@ + tail@)[cut as int]);
    if !is_leaf {
        let (_, up_child) = tail.remove(0);
        right_header.left_child = decode_child_id(up_child.as_slice());
    } else {
        right_header.prev_leaf = Some(left_id);
    }
    left_header.high_key = key_to_high_key(new_sep.as_slice());
    parent_entries.insert(i, (new_sep, link));
    let mut left_buf = copy_bytes(left_bytes);
    let mut right_buf = copy_bytes(right_bytes);
    let mut parent_buf = copy_bytes(page_bytes(page));
    let ghost mid = lone((sepk, e[ii].1));
    let ghost e2 = spliced_entries(e, ii, 2, mid);
    let ghost re = if is_leaf {
        je.skip(cut as int)
    } else {
        je.skip(cut + 1)
    };
    proof {
        assert(entries_view(left_entries@) =~= je.take(cut as int));
        assert(entries_view(tail@) =~= re);
        assert(entries_view(parent_entries@) =~= e2);
        assert(e2 =~= e.update(ii, (sepk, e[ii].1)));
        lemma_part_encodable(je, cut as int, if is_leaf {
            cut as int
        } else {
            cut + 1
        }, nl.page_type);
        assert forall|j: int| 0 <= j < e2.len() implies is_key((#[trigger] e2[j]).0)
            && e2[j].1.len() == 8 by {
            if j != ii {
                assert(e2[j] == e[j]);
            } else {
                assert(is_key(je[cut as int].0));
            }
        }
        assert(is_key(je[cut as int].0));
    }
    let r1 = encode_entries(&mut left_buf, &left_entries, left_header);
    let r2 = encode_entries(&mut right_buf, &tail, right_header);
    let r3 = encode_entries(&mut parent_buf, &parent_entries, header);
    let ghost lb = left_buf@;
    let ghost rb = right_buf@;
    let ghost pb = parent_buf@;
    p.write_page(left_id, page_from_vec(left_buf));
    p.write_page(right_id, page_from_vec(right_buf));
    p.write_page(id, page_from_vec(parent_buf));
    let ghost m2 = p.pages();
    let ghost a;
    let ghost b;
    proof {
        assert(m2[left_id] == lb && m2[right_id] == rb && m2[id] == pb);
        assert(same_but(m0, m2, id, left_id, right_id));
        if is_leaf {
            a = Tree::Leaf { id: left_id, entries: je.take(cut as int) };
            b = Tree::Leaf { id: right_id, entries: re };
            lemma_redistribute_leaf(
                t,
                ii,
                cut as int,
                m0,
                m2,
                own,
                lo,
                hi,
                next,
                depth,
                je,
            );
        } else {
            let jk = l->Node_kids + r->Node_kids;
            a = Tree::Node {
                id: left_id,
                entries: je.take(cut as int),
                kids: jk.take(cut + 1),
            };
            b = Tree::Node { id: right_id, entries: re, kids: jk.skip(cut + 1) };
            assert(je[cut as int].1.len() == 8);
            lemma_redistribute_node(
                t,
                ii,
                cut as int,
                m0,
                m2,
                own,
                lo,
                hi,
                next,
                depth,
                je,
                jk,
            );
        }
        lemma_pair_step(t, ii, mid, two(a, b), m0, m2, own, lo, hi, next, depth);
    }
    let ghost t2 = Tree::Node { id, entries: e2, kids: spliced_kids(kids, ii, 2, two(a, b)) };
    proof {
        let k2 = t2->Node_kids;
        assert(k2.len() == kids.len());
        assert(k2[ii] == a && k2[ii + 1] == b);
        if filled(t) && a.entries().len() >= least_keys_of(tree_type(l)) && b.entries().len()
            >= least_keys_of(tree_type(l)) {
            assert(t == Tree::Node { id, entries: e, kids });
            lemma_filled_node(id, e, kids);
            assert(kid_filled(kids[ii]) && kid_filled(kids[ii + 1]));
            if is_leaf {
                lemma_filled_leaf(a);
                lemma_filled_leaf(b);
            } else {
                lemma_fill_shared(l, r, a, b, cut + 1);
            }
            assert(two(a, b)[0] == a && two(a, b)[1] == b);
            assert(all_filled(two(a, b)));
            lemma_fill_pair(id, e, e2, kids, ii, two(a, b));
        }
        assert forall|j: int| 0 <= j < kids.len() implies (#[trigger] k2[j]).id()
            == kids[j].id() by {
            if j < ii {
                assert(k2[j] == kids[j]);
            } else if j > ii + 1 {
                assert(k2[j] == kids[j]);
            }
        }
    }
    Ghost(t2)
}

pub proof fn lemma_joined_sized(l: NodeModel, r: NodeModel, sep: Seq<u8>)
    requires
        entries_sized(l.entries, l.page_type),
        entries_sized(r.entries, l.page_type),
        l.page_type == PAGE_TYPE_LEAF || l.page_type == PAGE_TYPE_INTERNAL,
        is_key(sep),
    ensures
        entries_sized(joined(l, r, sep), l.page_type),
{
    let je = joined(l, r, sep);
    crate::layout::lemma_le8(r.left_child as int);
    assert forall|i: int| 0 <= i < je.len() implies is_key((#[trigger] je[i]).0) && je[i].1.len()
        == value_size_of(l.page_type) by {
        let n = l.entries.len() as int;
        if i < n {
            assert(je[i] == l.entries[i]);
        } else if l.page_type == PAGE_TYPE_LEAF {
            assert(je[i] == r.entries[i - n]);
        } else if i > n {
            assert(je[i] == r.entries[i - n - 1]);
        }
    }
}

proof fn lemma_part_encodable(je: Entries, a: int, b: int, page_type: u8)
    requires
        entries_sized(je, page_type),
        0 <= a <= b <= je.len(),
        HEADER_SIZE + a * (OFFSET_ENTRY_SIZE + entry_size_of(page_type)) <= PAGE_SIZE,
        HEADER_SIZE + (je.len() - a) * (OFFSET_ENTRY_SIZE + entry_size_of(page_type)) <= PAGE_SIZE,
    ensures
        encodable(je.take(a), page_type),
        encodable(je.skip(b), page_type),
        a <= 0xffff,
        je.len() - b <= 0xffff,
{
    let u = OFFSET_ENTRY_SIZE + entry_size_of(page_type);
    let n = je.len() as int;
    assert((n - b) * u <= (n - a) * u && a <= a * u && n - b <= (n - b) * u) by (nonlinear_arith)
        requires
            u >= 1,
            0 <= a <= b <= n,
    ;
}

proof fn lemma_redistribute_leaf(
    t: Tree,
    i: int,
    cut: int,
    m: Map<PageId, Seq<u8>>,
    m2: Map<PageId, Seq<u8>>,
    own: Set<PageId>,
    lo: int,
    hi: int,
    next: PageId,
    depth: nat,
    je: Entries,
)
    requires
        neighbours(t, m, own, lo, hi, next, depth, i),
        t->Node_kids[i] is Leaf,
        je == t->Node_kids[i].entries() + t->Node_kids[i + 1].entries(),
        0 < cut < je.len(),
        ({
            let l = t->Node_kids[i];
            let r = t->Node_kids[i + 1];
            let nl = node_of(m[l.id()]);
            let nr = node_of(m[r.id()]);
            &&& m2.contains_key(l.id())
            &&& m2.contains_key(r.id())
            &&& canonical(m2[l.id()])
            &&& canonical(m2[r.id()])
            &&& node_of(m2[l.id()]) == (NodeModel {
                entries: je.take(cut),
                high_key: Some(je[cut].0),
                ..nl
            })
            &&& node_of(m2[r.id()]) == (NodeModel {
                entries: je.skip(cut),
                prev_leaf: Some(l.id()),
                ..nr
            })
        }),
    ensures
        ({
            let l = t->Node_kids[i];
            let r = t->Node_kids[i + 1];
            let a = Tree::Leaf { id: l.id(), entries: je.take(cut) };
            let b = Tree::Leaf { id: r.id(), entries: je.skip(cut) };
            let mid = lone((je[cut].0, t.entries()[i].1));
            let lo1 = bound(t.entries(), lo, hi, i);
            let hi1 = bound(t.entries(), lo, hi, i + 2);
            &&& kids_ok(mid, two(a, b), m2, own, lo1, hi1, next_of(t->Node_kids, next, i + 1), depth)
            &&& kids_distinct(two(a, b))
            &&& first_leaf(a) == first_leaf(l)
            &&& forall|x: PageId|
                #[trigger] any_has_id(two(a, b), x) ==> has_id(l, x) || has_id(r, x)
            &&& forall|k: int|
                lo1 <= k < hi1 ==> #[trigger] lookup_kids(mid, two(a, b), k) == (if k < be_num(
                    t.entries()[i].0,
                ) {
                    lookup(l, k)
                } else {
                    lookup(r, k)
                })
        }),
{
    let e = t.entries();
    let kids = t->Node_kids;
    let l = kids[i];
    let r = kids[i + 1];
    let s = be_num(e[i].0);
    let s2 = be_num(je[cut].0);
    let lo1 = bound(e, lo, hi, i);
    let hi1 = bound(e, lo, hi, i + 2);
    let next1 = next_of(kids, next, i + 1);
    lemma_neighbours(t, m, own, lo, hi, next, depth, i);
    let a = Tree::Leaf { id: l.id(), entries: je.take(cut) };
    let b = Tree::Leaf { id: r.id(), entries: je.skip(cut) };
    lemma_leaf_tree(l.id(), l.entries());
    lemma_leaf_tree(r.id(), r.entries());
    lemma_leaf_tree(l.id(), je.take(cut));
    lemma_leaf_tree(r.id(), je.skip(cut));
    assert(l == Tree::Leaf { id: l.id(), entries: l.entries() });
    assert(r == Tree::Leaf { id: r.id(), entries: r.entries() });
    assert(keys_ok(l.entries(), lo1, s) && keys_ok(r.entries(), s, hi1) && leaf_page_ok(
        m,
        own,
        l.id(),
        l.entries(),
        s,
        r.id(),
    ) && leaf_page_ok(m, own, r.id(), r.entries(), hi1, next1)) by {
        reveal(ok);
    }
    lemma_join_leaf(l.entries(), r.entries(), lo1, s, hi1);
    lemma_cut_leaf(je, cut, lo1, hi1);
    let d1 = (depth - 1) as nat;
    assert(d1 == 0) by {
        reveal(ok);
    }
    assert(ok(a, m2, own, lo1, s2, r.id(), 0) && ok(b, m2, own, s2, hi1, next1, 0)) by {
        reveal(ok);
    }
    let mid = lone((je[cut].0, e[i].1));
    assert(is_key(je[cut].0));
    lemma_two_kids((je[cut].0, e[i].1), a, b, m2, own, lo1, hi1, next1, d1);
    assert forall|k: int| lo1 <= k < hi1 implies #[trigger] lookup_kids(mid, two(a, b), k) == (
    if k < s {
        lookup(l, k)
    } else {
        lookup(r, k)
    }) by {
        assert(leaf_get(je, k) == (if k < s {
            leaf_get(l.entries(), k)
        } else {
            leaf_get(r.entries(), k)
        }));
        assert(lookup(a, k) == leaf_get(je.take(cut), k));
        assert(lookup(b, k) == leaf_get(je.skip(cut), k));
    }
}

proof fn lemma_redistribute_node(
    t: Tree,
    i: int,
    cut: int,
    m: Map<PageId, Seq<u8>>,
    m2: Map<PageId, Seq<u8>>,
    own: Set<PageId>,
    lo: int,
    hi: int,
    next: PageId,
    depth: nat,
    je: Entries,
    jk: Seq<Tree>,
)
    requires
        neighbours(t, m, own, lo, hi, next, depth, i),
        t->Node_kids[i] is Node,
        t->Node_kids[i + 1] is Node,
        same_but(m, m2, t.id(), t->Node_kids[i].id(), t->Node_kids[i + 1].id()),
        je == t->Node_kids[i].entries().push(
            (t.entries()[i].0, le8(node_of(m[t->Node_kids[i + 1].id()]).left_child as int)),
        ) + t->Node_kids[i + 1].entries(),
        jk == t->Node_kids[i]->Node_kids + t->Node_kids[i + 1]->Node_kids,
        0 < cut < je.len(),
        ({
            let l = t->Node_kids[i];
            let r = t->Node_kids[i + 1];
            let nl = node_of(m[l.id()]);
            let nr = node_of(m[r.id()]);
            &&& m2.contains_key(l.id())
            &&& m2.contains_key(r.id())
            &&& canonical(m2[l.id()])
            &&& canonical(m2[r.id()])
            &&& node_of(m2[l.id()]) == (NodeModel {
                entries: je.take(cut),
                high_key: Some(je[cut].0),
                ..nl
            })
            &&& node_of(m2[r.id()]) == (NodeModel {
                entries: je.skip(cut + 1),
                left_child: u64_at(je[cut].1, 0) as u64,
                ..nr
            })
        }),
    ensures
        ({
            let l = t->Node_kids[i];
            let r = t->Node_kids[i + 1];
            let a = Tree::Node { id: l.id(), entries: je.take(cut), kids: jk.take(cut + 1) };
            let b = Tree::Node { id: r.id(), entries: je.skip(cut + 1), kids: jk.skip(cut + 1) };
            let mid = lone((je[cut].0, t.entries()[i].1));
            let lo1 = bound(t.entries(), lo, hi, i);
            let hi1 = bound(t.entries(), lo, hi, i + 2);
            &&& kids_ok(mid, two(a, b), m2, own, lo1, hi1, next_of(t->Node_kids, next, i + 1), depth)
            &&& kids_distinct(two(a, b))
            &&& first_leaf(a) == first_leaf(l)
            &&& forall|x: PageId|
                #[trigger] any_has_id(two(a, b), x) ==> has_id(l, x) || has_id(r, x)
            &&& forall|k: int|
                lo1 <= k < hi1 ==> #[trigger] lookup_kids(mid, two(a, b), k) == (if k < be_num(
                    t.entries()[i].0,
                ) {
                    lookup(l, k)
                } else {
                    lookup(r, k)
                })
        }),
{
    let e = t.entries();
    let kids = t->Node_kids;
    let l = kids[i];
    let r = kids[i + 1];
    let s = be_num(e[i].0);
    let s2 = be_num(je[cut].0);
    let lo1 = bound(e, lo, hi, i);
    let hi1 = bound(e, lo, hi, i + 2);
    let next1 = next_of(kids, next, i + 1);
    let d1 = (depth - 1) as nat;
    lemma_neighbours(t, m, own, lo, hi, next, depth, i);
    lemma_top_page(l, m, own, lo1, s, first_leaf(r), d1);
    lemma_top_page(r, m, own, s, hi1, next1, d1);
    lemma_joined_kids(t, i, m, m2, own, lo, hi, next, depth);
    lemma_cut(je, jk, cut, m2, own, lo1, hi1, next1, d1);
    super::split::lemma_sub_kids(jk, cut + 1);
    let k1 = jk.take(cut + 1);
    let k2 = jk.skip(cut + 1);
    let a = Tree::Node { id: l.id(), entries: je.take(cut), kids: k1 };
    let b = Tree::Node { id: r.id(), entries: je.skip(cut + 1), kids: k2 };
    assert(k1[0] == jk[0]);
    assert(k2[0] == jk[cut + 1]);
    assert(link_at(je, jk, cut));
    reveal(link_at);
    assert(!any_has_id(k1, l.id()) && !any_has_id(k1, r.id()) && !any_has_id(k2, l.id())
        && !any_has_id(k2, r.id())) by {
        if any_has_id(k1, l.id()) || any_has_id(k2, l.id()) {
            assert(any_has_id(jk, l.id()));
        }
        if any_has_id(k1, r.id()) || any_has_id(k2, r.id()) {
            assert(any_has_id(jk, r.id()));
        }
    }
    lemma_make_node(l.id(), je.take(cut), k1, m2, own, lo1, s2, first_leaf(jk[cut + 1]), d1);
    lemma_make_node(r.id(), je.skip(cut + 1), k2, m2, own, s2, hi1, next1, d1);
    assert(is_key(je[cut].0));
    lemma_has_top(l);
    lemma_has_top(r);
    assert forall|x: PageId| #[trigger] has_id(a, x) implies !has_id(b, x) by {
        if x != l.id() {
            assert(any_has_id(k1, x));
            assert(!any_has_id(k2, x));
        }
    }
    lemma_two_kids((je[cut].0, e[i].1), a, b, m2, own, lo1, hi1, next1, d1);
    let mid = lone((je[cut].0, e[i].1));
    assert forall|x: PageId| #[trigger] any_has_id(two(a, b), x) implies has_id(l, x) || has_id(
        r,
        x,
    ) by {
        if x != l.id() && x != r.id() {
            assert(any_has_id(k1, x) || any_has_id(k2, x));
            assert(any_has_id(jk, x));
        }
    }
    assert forall|k: int| lo1 <= k < hi1 implies #[trigger] lookup_kids(mid, two(a, b), k) == (
    if k < s {
        lookup(l, k)
    } else {
        lookup(r, k)
    }) by {
        assert(lookup_kids(je, jk, k) == (if k < s {
            lookup(l, k)
        } else {
            lookup(r, k)
        }));
        if k < s2 {
            assert(lookup(a, k) == lookup_kids(je.take(cut), k1, k));
        } else {
            assert(lookup(b, k) == lookup_kids(je.skip(cut + 1), k2, k));
        }
    }
}

/// Puts the entries of child `i + 1` of page `id` behind those of child `i`
/// and drops the separator between them, unless they do not fit one page.
/// Tells whether they did.
#[verifier::spinoff_prover]
#[verifier::rlimit(60)]
pub fn merge_pair<P: AsyncPageProvider>(
    p: &mut P,
    id: PageId,
    page: &Page,
    i: usize,
    left_id: PageId,
    left_page: &Page,
    right_id: PageId,
    right_page: &Page,
    Ghost(t): Ghost<Tree>,
    Ghost(own): Ghost<Set<PageId>>,
    Ghost(lo): Ghost<int>,
    Ghost(hi): Ghost<int>,
    Ghost(next): Ghost<PageId>,
    Ghost(depth): Ghost<nat>,
) -> (r: (bool, Ghost<Tree>))
    requires
        neighbours(t, old(p).pages(), own, lo, hi, next, depth, i as int),
        t.id() == id,
        bytes_view(*page) == old(p).pages()[id],
        t->Node_kids[i as int].id() == left_id,
        t->Node_kids[i + 1].id() == right_id,
        bytes_view(*left_page) == old(p).pages()[left_id],
        bytes_view(*right_page) == old(p).pages()[right_id],
    ensures
        sized(old(p).pages()) ==> sized(final(p).pages()),
        final(p).root() == old(p).root(),
        final(p).naming() == old(p).naming(),
        forall|base: Map<PageId, Seq<u8>>| #[trigger]
            old(p).covers(base) ==> final(p).covers(base),
        final(p).next_id() == old(p).next_id(),
        r.0 == encodable(
            joined(
                node_of(old(p).pages()[left_id]),
                node_of(old(p).pages()[right_id]),
                t.entries()[i as int].0,
            ),
            tree_type(t->Node_kids[i as int]),
        ),
        !r.0 ==> final(p).pages() == old(p).pages(),
        r.0 ==> {
            let t2 = r.1@;
            &&& same_but(old(p).pages(), final(p).pages(), id, left_id, right_id)
            &&& ok(t2, final(p).pages(), own, lo, hi, next, depth)
            &&& distinct(t2)
            &&& t2 is Node
            &&& t2.id() == id
            &&& first_leaf(t2) == first_leaf(t)
            &&& forall|x: PageId| #[trigger] has_id(t2, x) ==> has_id(t, x)
            &&& forall|k: int| lo <= k < hi ==> #[trigger] lookup(t2, k) == lookup(t, k)
            &&& t2.entries() == t.entries().remove(i as int)
            &&& t2->Node_kids.len() == t->Node_kids.len() - 1
            &&& t2->Node_kids[i as int].id() == left_id
            &&& tree_type(t2->Node_kids[i as int]) == tree_type(t->Node_kids[i as int])
            &&& t2->Node_kids[i as int].entries() == joined(
                node_of(old(p).pages()[left_id]),
                node_of(old(p).pages()[right_id]),
                t.entries()[i as int].0,
            )
            &&& filled(t) ==> filled(t2)
        },
{
    let ghost m0 = p.pages();
    let ghost e = t.entries();
    let ghost kids = t->Node_kids;
    let ghost ii = i as int;
    let ghost l = kids[ii];
    let ghost r = kids[ii + 1];
    let ghost s = be_num(e[ii].0);
    let ghost lo1 = bound(e, lo, hi, ii);
    let ghost hi1 = bound(e, lo, hi, ii + 2);
    let ghost next1 = next_of(kids, next, ii + 1);
    let ghost d1 = (depth - 1) as nat;
    proof {
        lemma_neighbours(t, m0, own, lo, hi, next, depth, ii);
        lemma_top_page(t, m0, own, lo, hi, next, depth);
        lemma_top_page(l, m0, own, lo1, s, first_leaf(r), d1);
        lemma_top_page(r, m0, own, s, hi1, next1, d1);
        lemma_canonical_table(m0[id]);
        lemma_canonical_table(m0[left_id]);
        lemma_canonical_table(m0[right_id]);
    }
    let ghost nl = node_of(m0[left_id]);
    let ghost nr = node_of(m0[right_id]);
    let ghost je = joined(nl, nr, e[ii].0);
    let header = page_header(page_bytes(page));
    let left_bytes = page_bytes(left_page);
    let right_bytes = page_bytes(right_page);
    let mut left_header = page_header(left_bytes);
    let right_header = page_header(right_bytes);
    let mut parent_entries = collect_entries(page_bytes(page));
    let mut left_entries = collect_entries(left_bytes);
    let mut right_entries = collect_entries(right_bytes);
    let is_leaf: bool = left_header.page_type == PAGE_TYPE_LEAF;
    let (old_sep, _) = parent_entries.remove(i);
    if is_leaf {
        left_header.next_leaf = right_header.next_leaf;
    } else {
        left_entries.push((old_sep, encode_child_id(right_header.left_child)));
    }
    left_header.high_key = right_header.high_key;
    left_entries.append(&mut right_entries);
    let ghost e2 = e.remove(ii);
    proof {
        assert(entries_view(left_entries@) =~= je);
        lemma_joined_sized(nl, nr, e[ii].0);
        assert(entries_view(parent_entries@) =~= e2);
        lemma_count_small(nl.entries, nl.page_type);
        lemma_count_small(nr.entries, nr.page_type);
    }
    let mut left_buf = copy_bytes(left_bytes);
    let mut parent_buf = copy_bytes(page_bytes(page));
    match encode_entries(&mut left_buf, &left_entries, left_header) {
        Ok(_) => {},
        Err(_) => {
            return (false, Ghost(t));
        },
    }
    proof {
        assert forall|j: int| 0 <= j < e2.len() implies is_key((#[trigger] e2[j]).0)
            && e2[j].1.len() == 8 by {
            if j < ii {
                assert(e2[j] == e[j]);
            } else {
                assert(e2[j] == e[j + 1]);
            }
        }
        let u = OFFSET_ENTRY_SIZE + entry_size_of(PAGE_TYPE_INTERNAL);
        assert((e.len() - 1) * u <= e.len() * u) by (nonlinear_arith)
            requires
                u >= 0,
        ;
    }
    let r3 = encode_entries(&mut parent_buf, &parent_entries, header);
    let ghost lb = left_buf@;
    let ghost pb = parent_buf@;
    p.write_page(id, page_from_vec(parent_buf));
    p.write_page(left_id, page_from_vec(left_buf));
    let ghost m2 = p.pages();
    let ghost none = Seq::<(Seq<u8>, Seq<u8>)>::empty();
    let ghost a;
    proof {
        assert(m2[left_id] == lb && m2[id] == pb);
        assert(same_but(m0, m2, id, left_id, right_id));
        assert(spliced_entries(e, ii, 2, none) =~= e2);
        lemma_has_top(l);
        lemma_has_top(r);
        if is_leaf {
            a = Tree::Leaf { id: left_id, entries: je };
            lemma_leaf_tree(l.id(), l.entries());
            lemma_leaf_tree(r.id(), r.entries());
            lemma_leaf_tree(l.id(), je);
            assert(l == Tree::Leaf { id: l.id(), entries: l.entries() });
            assert(r == Tree::Leaf { id: r.id(), entries: r.entries() });
            assert(keys_ok(l.entries(), lo1, s) && keys_ok(r.entries(), s, hi1) && leaf_page_ok(
                m0,
                own,
                l.id(),
                l.entries(),
                s,
                r.id(),
            ) && leaf_page_ok(m0, own, r.id(), r.entries(), hi1, next1)) by {
                reveal(ok);
            }
            lemma_join_leaf(l.entries(), r.entries(), lo1, s, hi1);
            assert(d1 == 0);
            assert(ok(a, m2, own, lo1, hi1, next1, 0)) by {
                reveal(ok);
            }
            assert forall|k: int| lo1 <= k < hi1 implies #[trigger] lookup(a, k) == (if k < s {
                lookup(l, k)
            } else {
                lookup(r, k)
            }) by {
                assert(lookup(a, k) == leaf_get(je, k));
            }
        } else {
            let jk = l->Node_kids + r->Node_kids;
            a = Tree::Node { id: left_id, entries: je, kids: jk };
            lemma_joined_kids(t, ii, m0, m2, own, lo, hi, next, depth);
            assert(!any_has_id(jk, left_id));
            lemma_make_node(left_id, je, jk, m2, own, lo1, hi1, next1, d1);
            assert forall|k: int| lo1 <= k < hi1 implies #[trigger] lookup(a, k) == (if k < s {
                lookup(l, k)
            } else {
                lookup(r, k)
            }) by {
                assert(lookup_kids(je, jk, k) == lookup(a, k));
            }
        }
        lemma_one_kid(a, m2, own, lo1, hi1, next1, d1);
        assert forall|k: int| lo1 <= k < hi1 implies #[trigger] lookup_kids(none, seq_one(a), k)
            == (if k < s {
            lookup(l, k)
        } else {
            lookup(r, k)
        }) by {
            assert(lookup(a, k) == lookup_kids(none, seq_one(a), k));
        }
        lemma_pair_step(t, ii, none, seq_one(a), m0, m2, own, lo, hi, next, depth);
    }
    let ghost t2 = Tree::Node { id, entries: e2, kids: spliced_kids(kids, ii, 2, seq_one(a)) };
    assert(t2->Node_kids[ii] == a);
    proof {
        if filled(t) {
            assert(t == Tree::Node { id, entries: e, kids });
            lemma_filled_node(id, e, kids);
            assert(kid_filled(kids[ii]) && kid_filled(kids[ii + 1]));
            if is_leaf {
                lemma_filled_leaf(a);
            } else {
                lemma_fill_merged(l, r, a);
            }
            assert(seq_one(a)[0] == a);
            assert(all_filled(seq_one(a)));
            lemma_fill_pair(id, e, e2, kids, ii, seq_one(a));
        }
    }
    (true, Ghost(t2))
}

proof fn lemma_count_small(e: Entries, page_type: u8)
    requires
        encodable(e, page_type),
    ensures
        e.len() <= 0x4000,
{
    let u = OFFSET_ENTRY_SIZE + entry_size_of(page_type);
    let n = e.len() as int;
    assert(n <= n * u) by (nonlinear_arith)
        requires
            u >= 1,
            n >= 0,
    ;
}

} // verus!
