//! Splitting full pages on the way down to an insert.
use vstd::prelude::*;

use super::chain::{first_of, sized};
use super::links::{forest, lemma_links_cut_leaf, lemma_links_cut_node, links_cut};
use super::node_page::{canonical, collect_entries, entry_size_of, lemma_canonical_table, node_of,
    page_header, split_internal, split_leaf, write_header, HEADER_SIZE, OFFSET_ENTRY_SIZE,
    PAGE_TYPE_INTERNAL, PAGE_TYPE_LEAF};
use super::provider::{listed_from, wrote_more, AsyncPageProvider};
use super::shape::{all_filled, filled, lemma_shape_cut_leaf, lemma_shape_cut_node, same_from,
    snug_cut};
use super::tree_lemmas::{lemma_cut, lemma_cut_leaf, lemma_segment, lemma_segment_distinct,
    lookup_kids, spliced_entries, spliced_kids};
use super::tree_model::{any_has_id, bound, distinct, first_leaf, has_id, keys_ok, kids_distinct,
    kids_ok, lemma_frame, lemma_has_top, lemma_ids_owned, lemma_next_of, lemma_route_bounds,
    lemma_route_unique, link_at, lookup, next_of, ok, seps_ok, Entries, Tree};
use super::validate::is_leaf;
use super::validity::ids_of;
use crate::common::{bytes_view, page_bytes, page_from_vec, Page, PageId, Result, PAGE_SIZE};
use crate::key_order::{be_num, is_key};
use crate::layout::{le8, u64_at};

verus! {

/// The pages owned after ids from `n0` up to `n1` were handed out.
pub open spec fn grown(own: Set<PageId>, n0: int, n1: int) -> Set<PageId> {
    own.union(Set::new(|x: PageId| n0 <= x < n1))
}

/// Every owned page has an id that was handed out.
pub open spec fn own_below(own: Set<PageId>, n: int) -> bool {
    forall|x: PageId| #[trigger] own.contains(x) ==> x < n
}

/// Old pages outside the subtree are as before.
pub open spec fn same_outside(
    m: Map<PageId, Seq<u8>>,
    m2: Map<PageId, Seq<u8>>,
    t: Tree,
    n0: int,
) -> bool {
    forall|x: PageId|
        !has_id(t, x) && x < n0 ==> (#[trigger] m2.contains_key(x) == m.contains_key(x)) && m2[x]
            == m[x]
}

/// Two subtrees in order.
pub open spec fn two(a: Tree, b: Tree) -> Seq<Tree> {
    seq![a, b]
}

/// A single separator.
pub open spec fn lone(sep: (Seq<u8>, Seq<u8>)) -> Entries {
    seq![sep]
}

pub open spec fn tree_type(t: Tree) -> u8 {
    match t {
        Tree::Leaf { .. } => PAGE_TYPE_LEAF,
        Tree::Node { .. } => PAGE_TYPE_INTERNAL,
    }
}

/// One more entry fits the top page.
pub open spec fn has_room(t: Tree) -> bool {
    HEADER_SIZE + (t.entries().len() + 1) * (OFFSET_ENTRY_SIZE + entry_size_of(tree_type(t)))
        <= PAGE_SIZE
}

/// What is known of the page at the top of a subtree.
pub proof fn lemma_top_page(
    t: Tree,
    m: Map<PageId, Seq<u8>>,
    own: Set<PageId>,
    lo: int,
    hi: int,
    next: PageId,
    depth: nat,
)
    requires
        ok(t, m, own, lo, hi, next, depth),
    ensures
        m.contains_key(t.id()),
        canonical(m[t.id()]),
        own.contains(t.id()),
        t.id() != 0,
        lo < hi,
        node_of(m[t.id()]).entries == t.entries(),
        node_of(m[t.id()]).page_type == tree_type(t),
        t is Leaf <==> depth == 0,
        t matches Tree::Node { entries, kids, .. } ==> kids_ok(
            entries,
            kids,
            m,
            own,
            lo,
            hi,
            next,
            depth,
        ) && node_of(m[t.id()]).left_child == kids[0].id(),
{
    reveal(ok);
}

/// A subtree with an internal page at its top.
pub proof fn lemma_make_node(
    id: PageId,
    e: Entries,
    kids: Seq<Tree>,
    m: Map<PageId, Seq<u8>>,
    own: Set<PageId>,
    lo: int,
    hi: int,
    next: PageId,
    depth: nat,
)
    requires
        kids_ok(e, kids, m, own, lo, hi, next, depth),
        super::tree_model::node_page_ok(m, own, id, e, kids[0].id()),
        kids_distinct(kids),
        !any_has_id(kids, id),
    ensures
        ok(Tree::Node { id, entries: e, kids }, m, own, lo, hi, next, depth),
        distinct(Tree::Node { id, entries: e, kids }),
        first_leaf(Tree::Node { id, entries: e, kids }) == first_leaf(kids[0]),
        forall|x: PageId|
            #[trigger] has_id(Tree::Node { id, entries: e, kids }, x) <==> x == id || any_has_id(
                kids,
                x,
            ),
        forall|k: int|
            lo <= k < hi ==> #[trigger] lookup(Tree::Node { id, entries: e, kids }, k)
                == lookup_kids(e, kids, k),
{
    let t = Tree::Node { id, entries: e, kids };
    reveal(ok);
    reveal(distinct);
    reveal(first_leaf);
    assert forall|x: PageId| #[trigger] has_id(t, x) <==> x == id || any_has_id(kids, x) by {
        lemma_has_node(id, e, kids, x);
    }
    assert forall|i: int| 0 <= i < kids.len() implies !(#[trigger] has_id(kids[i], id)) by {
        if has_id(kids[i], id) {
            assert(any_has_id(kids, id));
        }
    }
    assert forall|k: int| lo <= k < hi implies #[trigger] lookup(t, k) == lookup_kids(
        e,
        kids,
        k,
    ) by {
        reveal(lookup);
        lemma_route_bounds(e, kids, lo, hi, k);
    }
}

pub proof fn lemma_has_node(id: PageId, e: Entries, kids: Seq<Tree>, x: PageId)
    ensures
        has_id(Tree::Node { id, entries: e, kids }, x) <==> x == id || any_has_id(kids, x),
{
    reveal(has_id);
    let t = Tree::Node { id, entries: e, kids };
    if any_has_id(kids, x) {
        let i = choose|i: int| 0 <= i < kids.len() && #[trigger] has_id(kids[i], x);
        let k = kids[i];
        assert(has_id(t, x));
    }
    if has_id(t, x) && x != id {
        let i = choose|i: int| #![trigger kids[i]] 0 <= i < kids.len() && has_id(kids[i], x);
        assert(has_id(kids[i], x));
    }
}

/// What a subtree with an internal page at its top consists of.
pub proof fn lemma_open_node(id: PageId, e: Entries, kids: Seq<Tree>)
    requires
        distinct(Tree::Node { id, entries: e, kids }),
    ensures
        kids_distinct(kids),
        !any_has_id(kids, id),
        kids.len() > 0 ==> first_leaf(Tree::Node { id, entries: e, kids }) == first_leaf(kids[0]),
        forall|x: PageId|
            #[trigger] has_id(Tree::Node { id, entries: e, kids }, x) <==> x == id || any_has_id(
                kids,
                x,
            ),
{
    let t = Tree::Node { id, entries: e, kids };
    assert(kids_distinct(kids) && !any_has_id(kids, id)) by {
        reveal(distinct);
        assert(distinct(t));
        assert(t is Node);
        assert(t->Node_kids == kids);
        assert forall|i: int| #![trigger kids[i]] 0 <= i < kids.len() implies distinct(kids[i]) by {
            let x = t->Node_kids[i];
            assert(distinct(x));
        }
        assert(kids_distinct(kids));
        assert forall|i: int| 0 <= i < kids.len() implies !(#[trigger] has_id(kids[i], id)) by {
            assert(!has_id(t->Node_kids[i], t->Node_id));
        }
    }
    assert(kids.len() > 0 ==> first_leaf(t) == first_leaf(kids[0])) by {
        reveal(first_leaf);
    }
    assert forall|x: PageId| #[trigger] has_id(t, x) <==> x == id || any_has_id(kids, x) by {
        lemma_has_node(id, e, kids, x);
    }
}

pub proof fn lemma_lookup_node(
    id: PageId,
    e: Entries,
    kids: Seq<Tree>,
    lo: int,
    hi: int,
)
    requires
        seps_ok(e, kids, lo, hi),
    ensures
        forall|k: int|
            lo <= k < hi ==> #[trigger] lookup(Tree::Node { id, entries: e, kids }, k)
                == lookup_kids(e, kids, k),
{
    assert forall|k: int| lo <= k < hi implies #[trigger] lookup(
        Tree::Node { id, entries: e, kids },
        k,
    ) == lookup_kids(e, kids, k) by {
        reveal(lookup);
        lemma_route_bounds(e, kids, lo, hi, k);
    }
}

/// Two subtrees as the children of one page, around one separator.
pub proof fn lemma_two_kids(
    sep: (Seq<u8>, Seq<u8>),
    a: Tree,
    b: Tree,
    m: Map<PageId, Seq<u8>>,
    own: Set<PageId>,
    lo: int,
    hi: int,
    next: PageId,
    depth: nat,
)
    requires
        is_key(sep.0),
        lo < be_num(sep.0) < hi,
        u64_at(sep.1, 0) == b.id(),
        ok(a, m, own, lo, be_num(sep.0), first_leaf(b), depth),
        ok(b, m, own, be_num(sep.0), hi, next, depth),
        distinct(a),
        distinct(b),
        forall|x: PageId| #[trigger] has_id(a, x) ==> !has_id(b, x),
    ensures
        kids_ok(lone(sep), two(a, b), m, own, lo, hi, next, depth + 1),
        kids_distinct(two(a, b)),
        forall|x: PageId|
            #[trigger] any_has_id(two(a, b), x) <==> has_id(a, x) || has_id(b, x),
        forall|k: int|
            lo <= k < hi ==> #[trigger] lookup_kids(lone(sep), two(a, b), k) == (if k < be_num(
                sep.0,
            ) {
                lookup(a, k)
            } else {
                lookup(b, k)
            }),
{
    let e = lone(sep);
    let kids = two(a, b);
    let s = be_num(sep.0);
    reveal(link_at);
    assert(seps_ok(e, kids, lo, hi));
    lemma_next_of(kids, next, 0);
    lemma_next_of(kids, next, 1);
    assert forall|i: int| #![trigger kids[i]] 0 <= i < kids.len() implies ok(
        kids[i],
        m,
        own,
        bound(e, lo, hi, i),
        bound(e, lo, hi, i + 1),
        next_of(kids, next, i),
        depth,
    ) by {
        if i == 0 {
            assert(kids[0] == a);
        } else {
            assert(kids[1] == b);
        }
    }
    assert forall|x: PageId| #[trigger] any_has_id(kids, x) <==> has_id(a, x) || has_id(b, x) by {
        if has_id(a, x) {
            assert(has_id(kids[0], x));
        }
        if has_id(b, x) {
            assert(has_id(kids[1], x));
        }
    }
    assert forall|k: int| lo <= k < hi implies #[trigger] lookup_kids(e, kids, k) == (if k < s {
        lookup(a, k)
    } else {
        lookup(b, k)
    }) by {
        let ks = super::node_page::key_nums(e);
        assert(ks[0] == s);
        if k < s {
            lemma_route_unique(ks, k, 0);
        } else {
            lemma_route_unique(ks, k, 1);
        }
    }
}

/// A subtree that is one leaf.
pub proof fn lemma_leaf_tree(id: PageId, e: Entries)
    ensures
        distinct(Tree::Leaf { id, entries: e }),
        first_leaf(Tree::Leaf { id, entries: e }) == id,
        forall|x: PageId| #[trigger] has_id(Tree::Leaf { id, entries: e }, x) <==> x == id,
        forall|k: int|
            #[trigger] lookup(Tree::Leaf { id, entries: e }, k) == super::tree_model::leaf_get(
                e,
                k,
            ),
{
    reveal(distinct);
    reveal(first_leaf);
    reveal(has_id);
    reveal(lookup);
}

/// Splits the full page at the top of the subtree `t` in two: the page
/// itself, which keeps the lower half, and a new page to its right.
#[verifier::spinoff_prover]
#[verifier::rlimit(60)]
pub fn split_page<P: AsyncPageProvider>(
    p: &mut P,
    id: PageId,
    page: &Page,
    Ghost(t): Ghost<Tree>,
    Ghost(own): Ghost<Set<PageId>>,
    Ghost(lo): Ghost<int>,
    Ghost(hi): Ghost<int>,
    Ghost(next): Ghost<PageId>,
    Ghost(depth): Ghost<nat>,
) -> (r: (Result<(Vec<u8>, PageId)>, Ghost<(Tree, Tree)>))
    requires
        ok(t, old(p).pages(), own, lo, hi, next, depth),
        distinct(t),
        t.id() == id,
        bytes_view(*page) == old(p).pages()[id],
        t.entries().len() >= 2,
        own_below(own, old(p).next_id()),
        0 < old(p).next_id() < u64::MAX,
    ensures
        sized(old(p).pages()) ==> sized(final(p).pages()),
        final(p).root() == old(p).root(),
        final(p).naming() == old(p).naming(),
        forall|base: Map<PageId, Seq<u8>>| #[trigger]
            old(p).covers(base) ==> final(p).covers(base),
        final(p).next_id() == old(p).next_id() + 1,
        wrote_more(old(p).written(), final(p).written()),
        listed_from(final(p).written(), old(p).next_id(), final(p).next_id()),
        same_outside(old(p).pages(), final(p).pages(), t, old(p).next_id()),
        r.0 is Ok,
        ({
            let (sep, right_id) = r.0->Ok_0;
            let (a, b) = r.1@;
            let own2 = grown(own, old(p).next_id(), final(p).next_id());
            let mid = lone((sep@, le8(right_id as int)));
            let cs = two(a, b);
            &&& right_id == old(p).next_id()
            &&& is_key(sep@)
            &&& kids_ok(mid, cs, final(p).pages(), own2, lo, hi, next, depth + 1)
            &&& kids_distinct(cs)
            &&& a.id() == id
            &&& b.id() == right_id
            &&& first_leaf(a) == first_leaf(t)
            &&& forall|x: PageId|
                #[trigger] any_has_id(cs, x) ==> has_id(t, x) || x == right_id
            &&& forall|k: int| lo <= k < hi ==> #[trigger] lookup_kids(mid, cs, k) == lookup(t, k)
            &&& a.entries().len() + b.entries().len() <= t.entries().len()
            &&& a.entries().len() < t.entries().len()
            &&& b.entries().len() < t.entries().len()
            &&& tree_type(a) == tree_type(t)
            &&& tree_type(b) == tree_type(t)
            &&& links_cut(ids_of(t), forest(cs), old(p).pages(), final(p).pages(), right_id)
            &&& is_leaf(final(p).pages(), right_id) ==> first_of(final(p).pages(), right_id)
                == Some(sep@)
            &&& filled(t) && !has_room(t) ==> all_filled(cs)
            &&& snug_cut(t, a, b, be_num(sep@))
            &&& same_from(old(p).pages(), final(p).pages(), final(p).next_id())
        }),
{
    let ghost m0 = p.pages();
    let ghost n0 = p.next_id();
    let ghost e = t.entries();
    let ghost node = node_of(m0[id]);
    proof {
        lemma_top_page(t, m0, own, lo, hi, next, depth);
        lemma_canonical_table(m0[id]);
        lemma_has_top(t);
    }
    let bytes = page_bytes(page);
    let header = page_header(bytes);
    let entries = collect_entries(bytes);
    let right_id: PageId = p.alloc_page_id();
    let ghost own2 = grown(own, n0, n0 + 1);
    assert(own.subset_of(own2));
    assert(!own.contains(right_id));
    if header.page_type == PAGE_TYPE_LEAF {
        proof {
            lemma_split_bounds(t, m0, own, lo, hi, next, depth);
        }
        match split_leaf(bytes, entries) {
            Err(err) => {
                return (Err(err), Ghost((t, t)));
            },
            Ok((sep, (left, right))) => {
                let mut left = left;
                let mut right = right;
                let ghost l0 = left@;
                let ghost r0 = right@;
                let mut left_header = page_header(left.as_slice());
                left_header.next_leaf = Some(right_id);
                left_header.prev_leaf = header.prev_leaf;
                write_header(&mut left, left_header);
                let mut right_header = page_header(right.as_slice());
                right_header.prev_leaf = Some(id);
                right_header.next_leaf = header.next_leaf;
                write_header(&mut right, right_header);
                proof {
                    lemma_header_only(l0, left@);
                    lemma_header_only(r0, right@);
                }
                let ghost lb = left@;
                let ghost rb = right@;
                p.write_page(id, page_from_vec(left));
                p.write_page(right_id, page_from_vec(right));
                let ghost mid_at = e.len() as int / 2;
                let ghost a = Tree::Leaf { id, entries: e.take(mid_at) };
                let ghost b = Tree::Leaf { id: right_id, entries: e.skip(mid_at) };
                proof {
                    let m2 = p.pages();
                    let s = be_num(sep@);
                    lemma_cut_leaf(e, mid_at, lo, hi);
                    lemma_leaf_tree(id, e.take(mid_at));
                    lemma_leaf_tree(right_id, e.skip(mid_at));
                    lemma_leaf_tree(id, e);
                    crate::layout::lemma_le8(right_id as int);
                    reveal(ok);
                    assert(m2[id] == lb);
                    assert(m2[right_id] == rb);
                    assert(ok(a, m2, own2, lo, s, right_id, 0));
                    assert(ok(b, m2, own2, s, hi, next, 0));
                    lemma_two_kids(
                        (sep@, le8(right_id as int)),
                        a,
                        b,
                        m2,
                        own2,
                        lo,
                        hi,
                        next,
                        depth,
                    );
                    assert forall|k: int| lo <= k < hi implies #[trigger] lookup_kids(
                        lone((sep@, le8(right_id as int))),
                        two(a, b),
                        k,
                    ) == lookup(t, k) by {
                        assert(super::tree_model::leaf_get(e.take(mid_at), k) == lookup(a, k));
                        assert(super::tree_model::leaf_get(e.skip(mid_at), k) == lookup(b, k));
                    }
                    assert(two(a, b)[0] == a && two(a, b)[1] == b);
                    lemma_links_cut_leaf(t, a, b, m0, m2);
                    lemma_shape_cut_leaf(t, a, b, mid_at);
                }
                (Ok((sep, right_id)), Ghost((a, b)))
            },
        }
    } else {
        let ghost kids = t->Node_kids;
        match split_internal(bytes, entries) {
            Err(err) => {
                return (Err(err), Ghost((t, t)));
            },
            Ok((sep, (left, right))) => {
                let ghost lb = left@;
                let ghost rb = right@;
                p.write_page(id, page_from_vec(left));
                p.write_page(right_id, page_from_vec(right));
                let ghost at = e.len() as int / 2;
                let ghost a = Tree::Node { id, entries: e.take(at), kids: kids.take(at + 1) };
                let ghost b = Tree::Node {
                    id: right_id,
                    entries: e.skip(at + 1),
                    kids: kids.skip(at + 1),
                };
                proof {
                    let m2 = p.pages();
                    let s = be_num(sep@);
                    lemma_open_node(id, e, kids);
                    assert(t == Tree::Node { id, entries: e, kids });
                    lemma_kids_frame(e, kids, m0, m2, own, own2, lo, hi, next, depth, id, n0);
                    lemma_cut(e, kids, at, m2, own2, lo, hi, next, depth);
                    lemma_sub_kids(kids, at + 1);
                    crate::layout::lemma_le8(right_id as int);
                    assert(m2[id] == lb);
                    assert(m2[right_id] == rb);
                    assert(e[at].0 == sep@);
                    assert(link_at(e, kids, at));
                    reveal(link_at);
                    let k1 = kids.take(at + 1);
                    let k2 = kids.skip(at + 1);
                    assert(k1[0] == kids[0]);
                    assert(k2[0] == kids[at + 1]);
                    assert(!any_has_id(k1, right_id) && !any_has_id(k2, right_id)) by {
                        if any_has_id(kids, right_id) {
                            assert(has_id(t, right_id));
                            lemma_ids_owned(t, m0, own, lo, hi, next, depth, right_id);
                        }
                    }
                    lemma_make_node(
                        id,
                        e.take(at),
                        k1,
                        m2,
                        own2,
                        lo,
                        s,
                        first_leaf(kids[at + 1]),
                        depth,
                    );
                    lemma_make_node(right_id, e.skip(at + 1), k2, m2, own2, s, hi, next, depth);
                    lemma_lookup_node(id, e, kids, lo, hi);
                    assert forall|x: PageId| #[trigger] has_id(a, x) implies !has_id(b, x) by {}
                    lemma_two_kids(
                        (sep@, le8(right_id as int)),
                        a,
                        b,
                        m2,
                        own2,
                        lo,
                        hi,
                        next,
                        depth,
                    );
                    assert forall|k: int| lo <= k < hi implies #[trigger] lookup_kids(
                        lone((sep@, le8(right_id as int))),
                        two(a, b),
                        k,
                    ) == lookup(t, k) by {
                        if k < s {
                            assert(lookup(a, k) == lookup_kids(e.take(at), k1, k));
                        } else {
                            assert(lookup(b, k) == lookup_kids(e.skip(at + 1), k2, k));
                        }
                    }
                    assert(two(a, b)[0] == a && two(a, b)[1] == b);
                    assert forall|x: PageId| #[trigger] any_has_id(kids, x) implies m2[x] == m0[x] by {
                        assert(has_id(t, x));
                        lemma_ids_owned(t, m0, own, lo, hi, next, depth, x);
                    }
                    lemma_links_cut_node(id, e, kids, at + 1, a, b, m0, m2);
                    lemma_shape_cut_node(id, e, kids, at, a, b);
                }
                (Ok((sep, right_id)), Ghost((a, b)))
            },
        }
    }
}

/// A header update that keeps the key count keeps the entries.
pub proof fn lemma_header_only(s: Seq<u8>, s2: Seq<u8>)
    requires
        canonical(s),
        s2.len() == PAGE_SIZE,
        s2[0] == s[0],
        super::node_page::count_of(s2) == super::node_page::count_of(s),
        forall|i: int| HEADER_SIZE <= i < PAGE_SIZE ==> s2[i] == s[i],
    ensures
        canonical(s2),
        node_of(s2).entries == node_of(s).entries,
{
    let n = super::node_page::count_of(s);
    let u = entry_size_of(s[0]);
    lemma_canonical_table(s);
    assert forall|i: int| 0 <= i < n implies #[trigger] crate::layout::u16_at(
        s2,
        HEADER_SIZE + i * OFFSET_ENTRY_SIZE,
    ) == i * u by {
        assert(crate::layout::u16_at(s, HEADER_SIZE + i * OFFSET_ENTRY_SIZE) == i * u);
    }
    assert forall|i: int| 0 <= i < n implies node_of(s2).entries[i] == node_of(s).entries[i] by {
        super::node_page::lemma_canonical_bounds(s, i);
        super::node_page::lemma_canonical_bounds(s2, i);
        assert(super::node_page::key_of(s2, i) =~= super::node_page::key_of(s, i));
        assert(super::node_page::val_of(s2, i) =~= super::node_page::val_of(s, i));
    }
    assert(node_of(s2).entries =~= node_of(s).entries);
}

proof fn lemma_split_bounds(
    t: Tree,
    m: Map<PageId, Seq<u8>>,
    own: Set<PageId>,
    lo: int,
    hi: int,
    next: PageId,
    depth: nat,
)
    requires
        ok(t, m, own, lo, hi, next, depth),
        t is Leaf,
    ensures
        keys_ok(t.entries(), lo, hi),
        depth == 0,
        super::tree_model::leaf_page_ok(m, own, t.id(), t.entries(), hi, next),
{
    reveal(ok);
}

/// Writing the page above the children, and new pages, leaves the children as they are.
pub proof fn lemma_kids_frame(
    e: Entries,
    kids: Seq<Tree>,
    m: Map<PageId, Seq<u8>>,
    m2: Map<PageId, Seq<u8>>,
    own: Set<PageId>,
    own2: Set<PageId>,
    lo: int,
    hi: int,
    next: PageId,
    depth: nat,
    id: PageId,
    n0: int,
)
    requires
        kids_ok(e, kids, m, own, lo, hi, next, depth),
        !any_has_id(kids, id),
        own.subset_of(own2),
        own_below(own, n0),
        forall|x: PageId|
            x != id && x < n0 ==> (#[trigger] m2.contains_key(x) == m.contains_key(x)) && m2[x]
                == m[x],
    ensures
        kids_ok(e, kids, m2, own2, lo, hi, next, depth),
{
    assert forall|i: int| #![trigger kids[i]] 0 <= i < kids.len() implies ok(
        kids[i],
        m2,
        own2,
        bound(e, lo, hi, i),
        bound(e, lo, hi, i + 1),
        next_of(kids, next, i),
        (depth - 1) as nat,
    ) by {
        assert forall|x: PageId| #[trigger] has_id(kids[i], x) implies m2.contains_key(x) && m2[x]
            == m[x] by {
            assert(any_has_id(kids, x));
            lemma_ids_owned(
                kids[i],
                m,
                own,
                bound(e, lo, hi, i),
                bound(e, lo, hi, i + 1),
                next_of(kids, next, i),
                (depth - 1) as nat,
                x,
            );
            assert(m2.contains_key(x) == m.contains_key(x));
        }
        lemma_frame(
            kids[i],
            m,
            m2,
            own,
            own2,
            bound(e, lo, hi, i),
            bound(e, lo, hi, i + 1),
            next_of(kids, next, i),
            (depth - 1) as nat,
        );
    }
}

/// The two parts of a list of distinct subtrees.
pub proof fn lemma_sub_kids(kids: Seq<Tree>, p: int)
    requires
        kids_distinct(kids),
        0 <= p <= kids.len(),
    ensures
        kids_distinct(kids.take(p)),
        kids_distinct(kids.skip(p)),
        forall|x: PageId|
            #[trigger] any_has_id(kids, x) <==> any_has_id(kids.take(p), x) || any_has_id(
                kids.skip(p),
                x,
            ),
        forall|x: PageId|
            !(#[trigger] any_has_id(kids.take(p), x) && #[trigger] any_has_id(kids.skip(p), x)),
{
    let k1 = kids.take(p);
    let k2 = kids.skip(p);
    assert forall|i: int| #![trigger k1[i]] 0 <= i < k1.len() implies distinct(k1[i]) by {
        assert(k1[i] == kids[i]);
    }
    assert forall|i: int| #![trigger k2[i]] 0 <= i < k2.len() implies distinct(k2[i]) by {
        assert(k2[i] == kids[i + p]);
    }
    assert forall|i: int, j: int, x: PageId|
        0 <= i < j < k1.len() && #[trigger] has_id(k1[i], x) implies !(#[trigger] has_id(
        k1[j],
        x,
    )) by {
        assert(k1[i] == kids[i] && k1[j] == kids[j]);
    }
    assert forall|i: int, j: int, x: PageId|
        0 <= i < j < k2.len() && #[trigger] has_id(k2[i], x) implies !(#[trigger] has_id(
        k2[j],
        x,
    )) by {
        assert(k2[i] == kids[i + p] && k2[j] == kids[j + p]);
    }
    assert forall|x: PageId|
        #[trigger] any_has_id(kids, x) <==> any_has_id(k1, x) || any_has_id(k2, x) by {
        if any_has_id(kids, x) {
            let i = choose|i: int| 0 <= i < kids.len() && #[trigger] has_id(kids[i], x);
            if i < p {
                assert(has_id(k1[i], x));
            } else {
                assert(has_id(k2[i - p], x));
            }
        }
        if any_has_id(k1, x) {
            let i = choose|i: int| 0 <= i < k1.len() && #[trigger] has_id(k1[i], x);
            assert(has_id(kids[i], x));
        }
        if any_has_id(k2, x) {
            let i = choose|i: int| 0 <= i < k2.len() && #[trigger] has_id(k2[i], x);
            assert(has_id(kids[i + p], x));
        }
    }
    assert forall|x: PageId|
        !(#[trigger] any_has_id(k1, x) && #[trigger] any_has_id(k2, x)) by {
        if any_has_id(k1, x) && any_has_id(k2, x) {
            let i = choose|i: int| 0 <= i < k1.len() && #[trigger] has_id(k1[i], x);
            let j = choose|j: int| 0 <= j < k2.len() && #[trigger] has_id(k2[j], x);
            assert(has_id(kids[i], x) && has_id(kids[j + p], x));
        }
    }
}

/// Replacing neighbouring children of an internal page, with the page rewritten to match.
pub proof fn lemma_replace(
    id: PageId,
    e: Entries,
    kids: Seq<Tree>,
    i: int,
    a: int,
    mid: Entries,
    cs: Seq<Tree>,
    m: Map<PageId, Seq<u8>>,
    m2: Map<PageId, Seq<u8>>,
    own: Set<PageId>,
    own2: Set<PageId>,
    lo: int,
    hi: int,
    next: PageId,
    depth: nat,
)
    requires
        ok(Tree::Node { id, entries: e, kids }, m, own, lo, hi, next, depth),
        distinct(Tree::Node { id, entries: e, kids }),
        0 <= i,
        1 <= a,
        i + a <= kids.len(),
        kids_ok(
            mid,
            cs,
            m2,
            own2,
            bound(e, lo, hi, i),
            bound(e, lo, hi, i + a),
            next_of(kids, next, i + a - 1),
            depth,
        ),
        kids_distinct(cs),
        first_leaf(cs[0]) == first_leaf(kids[i]),
        cs[0].id() == kids[i].id(),
        own.subset_of(own2),
        forall|x: PageId|
            #[trigger] any_has_id(cs, x) ==> x != id && (any_has_id(kids.subrange(i, i + a), x)
                || !any_has_id(kids, x)),
        forall|j: int, x: PageId|
            0 <= j < kids.len() && !(i <= j < i + a) && #[trigger] has_id(kids[j], x)
                ==> m2.contains_key(x) && m2[x] == m[x],
        super::tree_model::node_page_ok(m2, own2, id, spliced_entries(e, i, a, mid), kids[0].id()),
    ensures
        ({
            let t = Tree::Node { id, entries: e, kids };
            let t2 = Tree::Node {
                id,
                entries: spliced_entries(e, i, a, mid),
                kids: spliced_kids(kids, i, a, cs),
            };
            &&& ok(t2, m2, own2, lo, hi, next, depth)
            &&& distinct(t2)
            &&& first_leaf(t2) == first_leaf(t)
            &&& forall|x: PageId| #[trigger] has_id(t2, x) ==> has_id(t, x) || any_has_id(cs, x)
            &&& forall|k: int|
                lo <= k < hi ==> #[trigger] lookup(t2, k) == (if bound(e, lo, hi, i) <= k < bound(
                    e,
                    lo,
                    hi,
                    i + a,
                ) {
                    lookup_kids(mid, cs, k)
                } else {
                    lookup(t, k)
                })
        }),
{
    let t = Tree::Node { id, entries: e, kids };
    let e2 = spliced_entries(e, i, a, mid);
    let k2 = spliced_kids(kids, i, a, cs);
    let t2 = Tree::Node { id, entries: e2, kids: k2 };
    lemma_top_page(t, m, own, lo, hi, next, depth);
    lemma_open_node(id, e, kids);
    lemma_segment(e, kids, i, a, mid, cs, m, m2, own, own2, lo, hi, next, depth);
    lemma_segment_distinct(kids, i, a, cs);
    assert(!any_has_id(k2, id)) by {
        if any_has_id(k2, id) {
            assert(any_has_id(kids, id) || any_has_id(cs, id));
        }
    }
    lemma_make_node(id, e2, k2, m2, own2, lo, hi, next, depth);
    lemma_lookup_node(id, e, kids, lo, hi);
    assert forall|x: PageId| #[trigger] has_id(t2, x) implies has_id(t, x) || any_has_id(
        cs,
        x,
    ) by {
        assert(x == id || any_has_id(k2, x));
    }
    assert forall|k: int| lo <= k < hi implies #[trigger] lookup(t2, k) == (if bound(e, lo, hi, i)
        <= k < bound(e, lo, hi, i + a) {
        lookup_kids(mid, cs, k)
    } else {
        lookup(t, k)
    }) by {
        assert(lookup(t2, k) == lookup_kids(e2, k2, k));
    }
}

/// One subtree where one was.
pub proof fn lemma_one_kid(
    c: Tree,
    m: Map<PageId, Seq<u8>>,
    own: Set<PageId>,
    lo: int,
    hi: int,
    next: PageId,
    depth: nat,
)
    requires
        ok(c, m, own, lo, hi, next, depth),
        distinct(c),
        lo < hi,
    ensures
        kids_ok(Seq::empty(), seq![c], m, own, lo, hi, next, depth + 1),
        kids_distinct(seq![c]),
        forall|x: PageId| #[trigger] any_has_id(seq_one(c), x) <==> has_id(c, x),
        forall|k: int|
            lo <= k < hi ==> #[trigger] lookup_kids(Seq::empty(), seq_one(c), k) == lookup(c, k),
{
    let kids = seq![c];
    lemma_next_of(kids, next, 0);
    assert(seps_ok(Seq::empty(), kids, lo, hi));
    assert forall|i: int| #![trigger kids[i]] 0 <= i < kids.len() implies ok(
        kids[i],
        m,
        own,
        bound(Seq::empty(), lo, hi, i),
        bound(Seq::empty(), lo, hi, i + 1),
        next_of(kids, next, i),
        depth,
    ) by {}
    assert forall|x: PageId| #[trigger] any_has_id(seq_one(c), x) <==> has_id(c, x) by {
        if has_id(c, x) {
            assert(has_id(kids[0], x));
        }
    }
    assert forall|k: int| lo <= k < hi implies #[trigger] lookup_kids(
        Seq::empty(),
        seq_one(c),
        k,
    ) == lookup(c, k) by {
        lemma_route_unique(super::node_page::key_nums(Seq::empty()), k, 0);
    }
}

/// A single subtree.
pub open spec fn seq_one(c: Tree) -> Seq<Tree> {
    seq![c]
}

} // verus!
