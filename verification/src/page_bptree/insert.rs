//! Inserting a row: full pages are split on the way down.
use vstd::prelude::*;

use super::chain::{first_of, sized};
use super::links::{first_lowered, forest, lemma_cut_beside, lemma_cut_then_kept, lemma_kept_beside,
    lemma_links_leaf, lemma_spliced_ids, links_cut, links_kept};
use super::node_page::{child_id_at_pos, child_insert_pos_for_key, child_of, collect_entries,
    encode_child_id, encode_entries, entries_view, entry_size_of, find_key_pos, key_nums,
    lemma_canonical_table, node_of, page_header, page_is_full_for_insert, rebuild_page_with_insert,
    replace_value_at, NodeModel, HEADER_SIZE, LEAF_VALUE_SIZE, OFFSET_ENTRY_SIZE, PAGE_TYPE_LEAF};
use super::provider::{listed_from, with_page, wrote_more, AsyncPageProvider};
use super::shape::{insert_shape, leaf_id, lemma_shape_after_split, lemma_shape_descend,
    lemma_shape_leaf, lemma_way_leaf, lemma_way_node, roomy};
use super::split::{grown, has_room, lemma_leaf_tree, lemma_lookup_node, lemma_one_kid,
    lemma_open_node, lemma_replace, lemma_top_page, lone, own_below, same_outside, seq_one,
    split_page, tree_type, two};
use super::tree_lemmas::{lemma_leaf_insert, lemma_leaf_update, lookup_kids, spliced_entries,
    spliced_kids};
use super::tree_model::{any_has_id, bound, distinct, first_leaf, has_id, kids_distinct, kids_ok,
    lemma_frame, lemma_has_top, lemma_ids_owned, lemma_route_bounds, lemma_route_unique, link_at,
    lookup, next_of, ok, route, seps_ok, Entries, Tree};
use super::validate::is_leaf;
use super::validity::ids_of;
use crate::common::{bytes_view, page_bytes, page_from_vec, Page, PageId, Result, PAGE_SIZE};
use crate::key_order::{be_num, bytes_lt, is_key, lemma_lex_is_num_order};
use crate::layout::{copy_bytes, le8};

verus! {

/// Child `i` of a subtree, as it stands in its own limits.
pub proof fn lemma_kid(
    e: Entries,
    kids: Seq<Tree>,
    m: Map<PageId, Seq<u8>>,
    own: Set<PageId>,
    lo: int,
    hi: int,
    next: PageId,
    depth: nat,
    i: int,
)
    requires
        kids_ok(e, kids, m, own, lo, hi, next, depth),
        0 <= i < kids.len(),
    ensures
        ok(
            kids[i],
            m,
            own,
            bound(e, lo, hi, i),
            bound(e, lo, hi, i + 1),
            next_of(kids, next, i),
            (depth - 1) as nat,
        ),
{
    let c = kids[i];
}

/// The id stored for child `i` is the child's.
pub proof fn lemma_child_of(n: NodeModel, e: Entries, kids: Seq<Tree>, lo: int, hi: int, i: int)
    requires
        seps_ok(e, kids, lo, hi),
        n.entries == e,
        n.left_child == kids[0].id(),
        0 <= i < kids.len(),
    ensures
        child_of(n, i) == kids[i].id(),
{
    reveal(link_at);
    if i > 0 {
        assert(link_at(e, kids, i - 1));
    }
}

/// Puts the encoded row of `key` into the subtree `t`, whose top page has
/// room. Tells whether the key is new.
#[verifier::spinoff_prover]
pub fn insert_below<P: AsyncPageProvider>(
    p: &mut P,
    id: PageId,
    key: &[u8],
    encoded: &[u8],
    Ghost(t): Ghost<Tree>,
    Ghost(own): Ghost<Set<PageId>>,
    Ghost(lo): Ghost<int>,
    Ghost(hi): Ghost<int>,
    Ghost(next): Ghost<PageId>,
    Ghost(depth): Ghost<nat>,
) -> (r: (Result<bool>, Ghost<Tree>))
    requires
        ok(t, old(p).pages(), own, lo, hi, next, depth),
        distinct(t),
        t.id() == id,
        has_room(t),
        is_key(key@),
        lo <= be_num(key@) < hi,
        encoded@.len() == LEAF_VALUE_SIZE,
        own_below(own, old(p).next_id()),
        0 < old(p).next_id(),
        old(p).next_id() + depth <= u64::MAX,
    ensures
        sized(old(p).pages()) ==> sized(final(p).pages()),
        final(p).root() == old(p).root(),
        final(p).naming() == old(p).naming(),
        forall|base: Map<PageId, Seq<u8>>| #[trigger]
            old(p).covers(base) ==> final(p).covers(base),
        old(p).next_id() <= final(p).next_id() <= old(p).next_id() + depth,
        same_outside(old(p).pages(), final(p).pages(), t, old(p).next_id()),
        r.0 is Ok,
        r.0->Ok_0 == (lookup(t, be_num(key@)) is None),
        ({
            let t2 = r.1@;
            let own2 = grown(own, old(p).next_id(), final(p).next_id());
            &&& ok(t2, final(p).pages(), own2, lo, hi, next, depth)
            &&& distinct(t2)
            &&& t2.id() == id
            &&& first_leaf(t2) == first_leaf(t)
            &&& forall|x: PageId|
                #[trigger] has_id(t2, x) ==> has_id(t, x) || old(p).next_id() <= x
            &&& forall|k: int|
                lo <= k < hi ==> #[trigger] lookup(t2, k) == (if k == be_num(key@) {
                    Some(encoded@)
                } else {
                    lookup(t, k)
                })
            &&& links_kept(ids_of(t), ids_of(t2), old(p).pages(), final(p).pages(), key@)
            &&& insert_shape(
                t,
                t2,
                old(p).pages(),
                final(p).pages(),
                be_num(key@),
                old(p).next_id(),
                final(p).next_id(),
            )
        }),
        wrote_more(old(p).written(), final(p).written()),
        listed_from(final(p).written(), old(p).next_id(), final(p).next_id()),
        roomy(t, be_num(key@)) ==> final(p).written() == with_page(
            old(p).written(),
            leaf_id(t, be_num(key@)),
        ),
        t matches Tree::Node { entries, kids, .. } ==> beside_kept(
            old(p).pages(),
            final(p).pages(),
            id,
            kids[route(key_nums(entries), be_num(key@))],
            old(p).next_id(),
        ),
    decreases depth, 1int, 0int,
{
    let ghost m0 = p.pages();
    let ghost n0 = p.next_id();
    let ghost kn = be_num(key@);
    let ghost e = t.entries();
    proof {
        lemma_top_page(t, m0, own, lo, hi, next, depth);
        lemma_canonical_table(m0[id]);
        lemma_has_top(t);
    }
    let page = p.read_page(id).unwrap();
    let bytes = page_bytes(&page);
    let header = page_header(bytes);
    if header.page_type == PAGE_TYPE_LEAF {
        return insert_in_leaf(
            p,
            id,
            key,
            encoded,
            Ghost(t),
            Ghost(own),
            Ghost(lo),
            Ghost(hi),
            Ghost(next),
        );
    }
    let ghost kids = t->Node_kids;
    proof {
        assert(t == Tree::Node { id, entries: e, kids });
        lemma_open_node(id, e, kids);
        lemma_route_bounds(e, kids, lo, hi, kn);
    }
    let child_pos: usize = child_insert_pos_for_key(bytes, key);
    proof {
        lemma_route_unique(key_nums(e), kn, child_pos as int);
        lemma_child_of(node_of(m0[id]), e, kids, lo, hi, child_pos as int);
        lemma_kid(e, kids, m0, own, lo, hi, next, depth, child_pos as int);
        super::tree_model::lemma_bounds(e, kids, lo, hi, child_pos as int);
    }
    let child_id: PageId = child_id_at_pos(bytes, child_pos);
    let ghost i = child_pos as int;
    let ghost c = kids[i];
    let ghost lo1 = bound(e, lo, hi, i);
    let ghost hi1 = bound(e, lo, hi, i + 1);
    let ghost next1 = next_of(kids, next, i);
    let ghost d1 = (depth - 1) as nat;
    proof {
        lemma_top_page(c, m0, own, lo1, hi1, next1, d1);
        lemma_canonical_table(m0[child_id]);
        lemma_lookup_node(id, e, kids, lo, hi);
        assert(distinct(kids[i]));
        lemma_has_top(c);
        assert(has_id(kids[i], child_id));
        assert(any_has_id(kids, child_id));
    }
    let child_page = p.read_page(child_id).unwrap();
    let child_header = page_header(page_bytes(&child_page));
    if page_is_full_for_insert(child_header) {
        return insert_after_split(
            p,
            id,
            &page,
            child_pos,
            child_id,
            &child_page,
            key,
            encoded,
            Ghost(t),
            Ghost(own),
            Ghost(lo),
            Ghost(hi),
            Ghost(next),
            Ghost(depth),
        );
    }
    let r = descend_insert(
        p,
        child_id,
        key,
        encoded,
        Ghost(i),
        Ghost(t),
        Ghost(own),
        Ghost(lo),
        Ghost(hi),
        Ghost(next),
        Ghost(depth),
    );
    proof {
        let m2 = p.pages();
        assert forall|x: PageId| x != id && !(#[trigger] has_id(c, x)) && x < n0 implies m2[x]
            == m0[x] by {
            assert(m2.contains_key(x) == m0.contains_key(x));
        }
    }
    r
}

/// The insert when the child that the key belongs to is full: the child is
/// split first.
#[verifier::spinoff_prover]
#[verifier::rlimit(40)]
fn insert_after_split<P: AsyncPageProvider>(
    p: &mut P,
    id: PageId,
    page: &Page,
    child_pos: usize,
    child_id: PageId,
    child_page: &Page,
    key: &[u8],
    encoded: &[u8],
    Ghost(t): Ghost<Tree>,
    Ghost(own): Ghost<Set<PageId>>,
    Ghost(lo): Ghost<int>,
    Ghost(hi): Ghost<int>,
    Ghost(next): Ghost<PageId>,
    Ghost(depth): Ghost<nat>,
) -> (r: (Result<bool>, Ghost<Tree>))
    requires
        t is Node,
        ok(t, old(p).pages(), own, lo, hi, next, depth),
        distinct(t),
        t.id() == id,
        has_room(t),
        bytes_view(*page) == old(p).pages()[id],
        bytes_view(*child_page) == old(p).pages()[child_id],
        child_pos < t->Node_kids.len(),
        t->Node_kids[child_pos as int].id() == child_id,
        !has_room(t->Node_kids[child_pos as int]),
        child_pos == route(key_nums(t.entries()), be_num(key@)),
        bound(t.entries(), lo, hi, child_pos as int) <= be_num(key@) < bound(
            t.entries(),
            lo,
            hi,
            child_pos + 1,
        ),
        is_key(key@),
        lo <= be_num(key@) < hi,
        encoded@.len() == LEAF_VALUE_SIZE,
        own_below(own, old(p).next_id()),
        0 < old(p).next_id(),
        old(p).next_id() + depth <= u64::MAX,
        depth > 0,
    ensures
        sized(old(p).pages()) ==> sized(final(p).pages()),
        final(p).root() == old(p).root(),
        final(p).naming() == old(p).naming(),
        forall|base: Map<PageId, Seq<u8>>| #[trigger]
            old(p).covers(base) ==> final(p).covers(base),
        old(p).next_id() <= final(p).next_id() <= old(p).next_id() + depth,
        same_outside(old(p).pages(), final(p).pages(), t, old(p).next_id()),
        r.0 is Ok,
        r.0->Ok_0 == (lookup(t, be_num(key@)) is None),
        ({
            let t2 = r.1@;
            let own2 = grown(own, old(p).next_id(), final(p).next_id());
            &&& ok(t2, final(p).pages(), own2, lo, hi, next, depth)
            &&& distinct(t2)
            &&& t2.id() == id
            &&& first_leaf(t2) == first_leaf(t)
            &&& forall|x: PageId|
                #[trigger] has_id(t2, x) ==> has_id(t, x) || old(p).next_id() <= x
            &&& forall|k: int|
                lo <= k < hi ==> #[trigger] lookup(t2, k) == (if k == be_num(key@) {
                    Some(encoded@)
                } else {
                    lookup(t, k)
                })
            &&& links_kept(ids_of(t), ids_of(t2), old(p).pages(), final(p).pages(), key@)
            &&& insert_shape(
                t,
                t2,
                old(p).pages(),
                final(p).pages(),
                be_num(key@),
                old(p).next_id(),
                final(p).next_id(),
            )
        }),
        wrote_more(old(p).written(), final(p).written()),
        listed_from(final(p).written(), old(p).next_id(), final(p).next_id()),
        roomy(t, be_num(key@)) ==> final(p).written() == with_page(
            old(p).written(),
            leaf_id(t, be_num(key@)),
        ),
        beside_kept(
            old(p).pages(),
            final(p).pages(),
            id,
            t->Node_kids[child_pos as int],
            old(p).next_id(),
        ),
    decreases depth, 0int, 1int,
{
    let ghost m0 = p.pages();
    let ghost n0 = p.next_id();
    let ghost kn = be_num(key@);
    let ghost e = t.entries();
    let ghost kids = t->Node_kids;
    let ghost i = child_pos as int;
    let ghost c = kids[i];
    let ghost lo1 = bound(e, lo, hi, i);
    let ghost hi1 = bound(e, lo, hi, i + 1);
    let ghost next1 = next_of(kids, next, i);
    let ghost d1 = (depth - 1) as nat;
    proof {
        assert(t == Tree::Node { id, entries: e, kids });
        lemma_top_page(t, m0, own, lo, hi, next, depth);
        lemma_canonical_table(m0[id]);
        lemma_open_node(id, e, kids);
        lemma_kid(e, kids, m0, own, lo, hi, next, depth, i);
        lemma_top_page(c, m0, own, lo1, hi1, next1, d1);
        lemma_canonical_table(m0[child_id]);
        assert(distinct(kids[i]));
        lemma_full_is_large(c);
        lemma_has_top(c);
        assert(has_id(kids[i], child_id));
        assert(any_has_id(kids, child_id));
    }
    let bytes = page_bytes(page);
    let header = page_header(bytes);
    let (res, Ghost(halves)) = split_page(
        p,
        child_id,
        child_page,
        Ghost(c),
        Ghost(own),
        Ghost(lo1),
        Ghost(hi1),
        Ghost(next1),
        Ghost(d1),
    );
    let (separator, right_id) = match res {
        Ok(v) => v,
        Err(err) => {
            return (Err(err), Ghost(t));
        },
    };
    let ghost m1 = p.pages();
    let ghost own1 = grown(own, n0, n0 + 1);
    let ghost a = halves.0;
    let ghost b = halves.1;
    let ghost mid = lone((separator@, le8(right_id as int)));
    let ghost cs = two(a, b);
    let mut parent_entries = collect_entries(bytes);
    let child_payload = encode_child_id(right_id);
    let sep_copy = copy_bytes(separator.as_slice());
    parent_entries.insert(child_pos, (sep_copy, child_payload));
    let mut parent_buf = copy_bytes(bytes);
    let ghost e1 = spliced_entries(e, i, 1, mid);
    proof {
        assert(entries_view(parent_entries@) =~= e1);
        assert(e1 =~= e.insert(i, (separator@, le8(right_id as int))));
        assert forall|j: int| 0 <= j < e1.len() implies is_key((#[trigger] e1[j]).0)
            && e1[j].1.len() == 8 by {
            if j < i {
                assert(e1[j] == e[j]);
            } else if j > i {
                assert(e1[j] == e[j - 1]);
            }
        }
    }
    match encode_entries(&mut parent_buf, &parent_entries, header) {
        Ok(_) => {},
        Err(err) => {
            return (Err(err), Ghost(t));
        },
    }
    p.write_page(id, page_from_vec(parent_buf));
    let ghost m2 = p.pages();
    let ghost k1 = spliced_kids(kids, i, 1, cs);
    let ghost t1 = Tree::Node { id, entries: e1, kids: k1 };
    proof {
        lemma_split_step(
            t,
            id,
            e,
            kids,
            i,
            mid,
            cs,
            m0,
            m1,
            m2,
            own,
            own1,
            lo,
            hi,
            next,
            depth,
            n0,
        );
        assert(k1.len() == e1.len() + 1);
        assert(k1[i] == a);
        assert(k1[i + 1] == b);
        assert(a == cs[0] && b == cs[1]);
        assert(key_nums(e1)[i] == be_num(separator@));
        lemma_lex_is_num_order(key@, separator@);
    }
    let go_left: bool = bytes_lt(key, separator.as_slice());
    let ghost j: int = if go_left {
        i
    } else {
        i + 1
    };
    let next_id: PageId = if go_left {
        child_id
    } else {
        right_id
    };
    proof {
        lemma_half_room(c, a, b);
        lemma_split_route(e, kids, i, mid, cs, lo, hi, kn, j);
    }
    let (res2, Ghost(t2)) = descend_insert(
        p,
        next_id,
        key,
        encoded,
        Ghost(j),
        Ghost(t1),
        Ghost(own1),
        Ghost(lo),
        Ghost(hi),
        Ghost(next),
        Ghost(depth),
    );
    proof {
        let m3 = p.pages();
        assert forall|x: PageId| !has_id(t, x) && x < n0 implies (#[trigger] m3.contains_key(x)
            == m0.contains_key(x)) && m3[x] == m0[x] by {
            assert(!has_id(t1, x)) by {
                if has_id(t1, x) {
                    assert(has_id(t, x) || any_has_id(cs, x));
                }
            }
            assert(m3.contains_key(x) == m2.contains_key(x));
            assert(m2.contains_key(x) == m1.contains_key(x));
            assert(!has_id(c, x)) by {
                if has_id(kids[i], x) {
                    assert(any_has_id(kids, x));
                }
            }
            assert(m1.contains_key(x) == m0.contains_key(x));
        }
        let own3 = grown(own1, n0 + 1, p.next_id());
        assert(own3 =~= grown(own, n0, p.next_id()));
        assert forall|x: PageId| #[trigger] has_id(t2, x) implies has_id(t, x) || n0 <= x by {
            if has_id(t1, x) && !has_id(t, x) {
                assert(any_has_id(cs, x));
                assert(has_id(c, x) || x == right_id);
                if has_id(c, x) {
                    assert(has_id(kids[i], x));
                    assert(any_has_id(kids, x));
                }
            }
        }
        assert(lookup(t1, kn) == lookup(t, kn));
        assert forall|k: int| lo <= k < hi implies #[trigger] lookup(t2, k) == (if k == kn {
            Some(encoded@)
        } else {
            lookup(t, k)
        }) by {
            assert(lookup(t1, k) == lookup(t, k));
        }
        lemma_links_after_split(
            id,
            e,
            kids,
            i,
            e1,
            a,
            b,
            t2,
            separator@,
            go_left,
            m0,
            m1,
            m2,
            m3,
            n0,
            own,
            lo,
            hi,
            next,
            depth,
            key@,
        );
        lemma_shape_after_split(
            id,
            e,
            kids,
            i,
            (separator@, le8(right_id as int)),
            a,
            b,
            t2,
            m0,
            m1,
            m2,
            m3,
            kn,
            n0,
            p.next_id(),
            own,
            lo,
            hi,
            next,
            depth,
        );
        lemma_way_node(id, e, kids, kn);
        assert(!roomy(c, kn)) by {
            reveal(roomy);
        }
    }
    (res2, Ghost(t2))
}

pub proof fn lemma_full_is_large(c: Tree)
    requires
        !has_room(c),
    ensures
        c.entries().len() >= 2,
{
    let u = OFFSET_ENTRY_SIZE + entry_size_of(tree_type(c));
    let n = c.entries().len() as int;
    if n < 2 {
        assert((n + 1) * u <= 2 * 1078) by (nonlinear_arith)
            requires
                0 <= n < 2,
                0 <= u <= 1078,
        ;
    }
}

/// The insert at the leaf the key belongs to.
#[verifier::spinoff_prover]
fn insert_in_leaf<P: AsyncPageProvider>(
    p: &mut P,
    id: PageId,
    key: &[u8],
    encoded: &[u8],
    Ghost(t): Ghost<Tree>,
    Ghost(own): Ghost<Set<PageId>>,
    Ghost(lo): Ghost<int>,
    Ghost(hi): Ghost<int>,
    Ghost(next): Ghost<PageId>,
) -> (r: (Result<bool>, Ghost<Tree>))
    requires
        ok(t, old(p).pages(), own, lo, hi, next, 0),
        t.id() == id,
        t is Leaf,
        has_room(t),
        is_key(key@),
        lo <= be_num(key@) < hi,
        encoded@.len() == LEAF_VALUE_SIZE,
        own_below(own, old(p).next_id()),
    ensures
        sized(old(p).pages()) ==> sized(final(p).pages()),
        final(p).root() == old(p).root(),
        final(p).naming() == old(p).naming(),
        forall|base: Map<PageId, Seq<u8>>| #[trigger]
            old(p).covers(base) ==> final(p).covers(base),
        final(p).next_id() == old(p).next_id(),
        same_outside(old(p).pages(), final(p).pages(), t, old(p).next_id()),
        r.0 is Ok,
        r.0->Ok_0 == (lookup(t, be_num(key@)) is None),
        ({
            let t2 = r.1@;
            let own2 = grown(own, old(p).next_id(), final(p).next_id());
            &&& ok(t2, final(p).pages(), own2, lo, hi, next, 0)
            &&& distinct(t2)
            &&& t2.id() == id
            &&& first_leaf(t2) == first_leaf(t)
            &&& forall|x: PageId| #[trigger] has_id(t2, x) ==> has_id(t, x)
            &&& forall|k: int|
                lo <= k < hi ==> #[trigger] lookup(t2, k) == (if k == be_num(key@) {
                    Some(encoded@)
                } else {
                    lookup(t, k)
                })
            &&& links_kept(ids_of(t), ids_of(t2), old(p).pages(), final(p).pages(), key@)
            &&& insert_shape(
                t,
                t2,
                old(p).pages(),
                final(p).pages(),
                be_num(key@),
                old(p).next_id(),
                final(p).next_id(),
            )
        }),
        wrote_more(old(p).written(), final(p).written()),
        listed_from(final(p).written(), old(p).next_id(), final(p).next_id()),
        roomy(t, be_num(key@)) ==> final(p).written() == with_page(
            old(p).written(),
            leaf_id(t, be_num(key@)),
        ),
{
    let ghost m0 = p.pages();
    let ghost e = t.entries();
    proof {
        lemma_top_page(t, m0, own, lo, hi, next, 0);
        lemma_canonical_table(m0[id]);
        reveal(ok);
        lemma_leaf_tree(id, e);
        assert(t == Tree::Leaf { id, entries: e });
    }
    let ghost own2 = grown(own, p.next_id(), p.next_id());
    assert(own2 =~= own);
    let page = p.read_page(id).unwrap();
    let bytes = page_bytes(&page);
    let header = page_header(bytes);
    let (found, pos) = find_key_pos(bytes, key).unwrap();
    let ghost ks = key_nums(e);
    if found {
        let mut buf = copy_bytes(bytes);
        replace_value_at(&mut buf, pos, encoded);
        p.write_page(id, page_from_vec(buf));
        let ghost e2 = e.update(pos as int, (e[pos as int].0, encoded@));
        let ghost t2 = Tree::Leaf { id, entries: e2 };
        proof {
            lemma_leaf_update(e, pos as int, encoded@, lo, hi);
            super::tree_model::lemma_leaf_get(e, pos as int);
            lemma_leaf_tree(id, e2);
            assert forall|k: int| lo <= k < hi implies #[trigger] lookup(t2, k) == (if k == be_num(
                key@,
            ) {
                Some(encoded@)
            } else {
                lookup(t, k)
            }) by {
                assert(super::tree_model::leaf_get(e2, k) == lookup(t2, k));
            }
            lemma_links_leaf(t, t2, m0, p.pages(), key@);
            lemma_shape_leaf(t, t2, m0, p.pages(), be_num(key@), p.next_id());
            lemma_way_leaf(t, be_num(key@));
        }
        return (Ok(false), Ghost(t2));
    }
    proof {
        assert forall|j: int| 0 <= j < e.len() implies (j < pos ==> be_num((#[trigger] e[j]).0)
            < be_num(key@)) && (j >= pos ==> be_num(key@) < be_num(e[j].0)) by {
            assert(ks[j] == be_num(e[j].0));
            if j >= pos {
                assert(be_num(key@) <= ks[j]);
                if be_num(key@) == ks[j] {
                    if j > pos {
                        assert(ks[pos as int] < ks[j]);
                        assert(be_num(key@) <= ks[pos as int]);
                    }
                    lemma_lex_is_num_order(e[pos as int].0, key@);
                }
            }
        }
    }
    let rebuilt = match rebuild_page_with_insert(bytes, header, pos, key, encoded) {
        Ok(v) => v,
        Err(err) => {
            return (Err(err), Ghost(t));
        },
    };
    p.write_page(id, rebuilt);
    let ghost e2 = e.insert(pos as int, (key@, encoded@));
    let ghost t2 = Tree::Leaf { id, entries: e2 };
    proof {
        lemma_leaf_insert(e, pos as int, key@, encoded@, lo, hi);
        lemma_leaf_tree(id, e2);
        assert forall|k: int| lo <= k < hi implies #[trigger] lookup(t2, k) == (if k == be_num(
            key@,
        ) {
            Some(encoded@)
        } else {
            lookup(t, k)
        }) by {
            assert(super::tree_model::leaf_get(e2, k) == lookup(t2, k));
        }
        assert(lookup(t, be_num(key@)) is None);
        if e.len() > 0 {
            assert(pos == 0 ==> be_num(key@) < be_num(e[0].0));
        }
        lemma_links_leaf(t, t2, m0, p.pages(), key@);
        lemma_shape_leaf(t, t2, m0, p.pages(), be_num(key@), p.next_id());
        lemma_way_leaf(t, be_num(key@));
    }
    (Ok(true), Ghost(t2))
}

/// Goes on with the insert in child `j`, which has room.
#[verifier::spinoff_prover]
fn descend_insert<P: AsyncPageProvider>(
    p: &mut P,
    child_id: PageId,
    key: &[u8],
    encoded: &[u8],
    Ghost(j): Ghost<int>,
    Ghost(t): Ghost<Tree>,
    Ghost(own): Ghost<Set<PageId>>,
    Ghost(lo): Ghost<int>,
    Ghost(hi): Ghost<int>,
    Ghost(next): Ghost<PageId>,
    Ghost(depth): Ghost<nat>,
) -> (r: (Result<bool>, Ghost<Tree>))
    requires
        t is Node,
        ok(t, old(p).pages(), own, lo, hi, next, depth),
        distinct(t),
        0 <= j < t->Node_kids.len(),
        t->Node_kids[j].id() == child_id,
        has_room(t->Node_kids[j]),
        bound(t.entries(), lo, hi, j) <= be_num(key@) < bound(t.entries(), lo, hi, j + 1),
        is_key(key@),
        lo <= be_num(key@) < hi,
        encoded@.len() == LEAF_VALUE_SIZE,
        own_below(own, old(p).next_id()),
        0 < old(p).next_id(),
        old(p).next_id() + depth - 1 <= u64::MAX,
        depth > 0,
    ensures
        sized(old(p).pages()) ==> sized(final(p).pages()),
        final(p).root() == old(p).root(),
        final(p).naming() == old(p).naming(),
        forall|base: Map<PageId, Seq<u8>>| #[trigger]
            old(p).covers(base) ==> final(p).covers(base),
        old(p).next_id() <= final(p).next_id() <= old(p).next_id() + depth - 1,
        same_outside(old(p).pages(), final(p).pages(), t, old(p).next_id()),
        r.0 is Ok,
        r.0->Ok_0 == (lookup(t, be_num(key@)) is None),
        ({
            let t2 = r.1@;
            let own2 = grown(own, old(p).next_id(), final(p).next_id());
            &&& ok(t2, final(p).pages(), own2, lo, hi, next, depth)
            &&& distinct(t2)
            &&& t2.id() == t.id()
            &&& first_leaf(t2) == first_leaf(t)
            &&& forall|x: PageId|
                #[trigger] has_id(t2, x) ==> has_id(t, x) || old(p).next_id() <= x
            &&& forall|k: int|
                lo <= k < hi ==> #[trigger] lookup(t2, k) == (if k == be_num(key@) {
                    Some(encoded@)
                } else {
                    lookup(t, k)
                })
            &&& links_kept(ids_of(t), ids_of(t2), old(p).pages(), final(p).pages(), key@)
            &&& insert_shape(
                t,
                t2,
                old(p).pages(),
                final(p).pages(),
                be_num(key@),
                old(p).next_id(),
                final(p).next_id(),
            )
        }),
        wrote_more(old(p).written(), final(p).written()),
        listed_from(final(p).written(), old(p).next_id(), final(p).next_id()),
        roomy(t, be_num(key@)) ==> final(p).written() == with_page(
            old(p).written(),
            leaf_id(t, be_num(key@)),
        ),
        same_outside(old(p).pages(), final(p).pages(), t->Node_kids[j], old(p).next_id()),
    decreases depth, 0int, 0int,
{
    let ghost m0 = p.pages();
    let ghost n0 = p.next_id();
    let ghost id = t.id();
    let ghost e = t.entries();
    let ghost kids = t->Node_kids;
    let ghost kn = be_num(key@);
    let ghost lo1 = bound(e, lo, hi, j);
    let ghost hi1 = bound(e, lo, hi, j + 1);
    let ghost next1 = next_of(kids, next, j);
    let ghost d1 = (depth - 1) as nat;
    let ghost c = kids[j];
    proof {
        assert(t == Tree::Node { id, entries: e, kids });
        lemma_top_page(t, m0, own, lo, hi, next, depth);
        lemma_open_node(id, e, kids);
        lemma_kid(e, kids, m0, own, lo, hi, next, depth, j);
        assert(distinct(kids[j]));
        super::tree_model::lemma_bounds(e, kids, lo, hi, j);
    }
    let (res, Ghost(c2)) = insert_below(
        p,
        child_id,
        key,
        encoded,
        Ghost(c),
        Ghost(own),
        Ghost(lo1),
        Ghost(hi1),
        Ghost(next1),
        Ghost(d1),
    );
    let ghost m1 = p.pages();
    let ghost own2 = grown(own, n0, p.next_id());
    let ghost cs = seq_one(c2);
    let ghost none = Seq::<(Seq<u8>, Seq<u8>)>::empty();
    let ghost e2 = spliced_entries(e, j, 1, none);
    let ghost t2 = Tree::Node { id, entries: e2, kids: spliced_kids(kids, j, 1, cs) };
    proof {
        lemma_one_kid(c2, m1, own2, lo1, hi1, next1, d1);
        lemma_descend_step(t, id, e, kids, j, c2, m0, m1, own, own2, lo, hi, next, depth, n0);
        lemma_lookup_node(id, e, kids, lo, hi);
        super::tree_model::lemma_route_from_bounds(e, kids, lo, hi, kn, j);
        lemma_outside_child(id, e, kids, j, m0, m1, n0);
        assert forall|k: int| lo <= k < hi implies #[trigger] lookup(t2, k) == (if k == kn {
            Some(encoded@)
        } else {
            lookup(t, k)
        }) by {
            if lo1 <= k < hi1 {
                super::tree_model::lemma_route_from_bounds(e, kids, lo, hi, k, j);
                assert(lookup_kids(none, cs, k) == lookup(c2, k));
                assert(lookup(t, k) == lookup(c, k));
            }
        }
        lemma_links_descend(id, e, kids, j, c2, m0, m1, n0, own, lo, hi, next, depth, key@);
        lemma_top_page(c, m0, own, lo1, hi1, next1, d1);
        lemma_top_page(c2, m1, own2, lo1, hi1, next1, d1);
        assert(e2 =~= e);
        lemma_shape_descend(
            id,
            e,
            kids,
            j,
            c2,
            m0,
            m1,
            kn,
            n0,
            p.next_id(),
            own,
            lo,
            hi,
            next,
            depth,
        );
        lemma_way_node(id, e, kids, kn);
    }
    (res, Ghost(t2))
}

/// What stays outside a child stays outside the subtree.
proof fn lemma_outside_child(
    id: PageId,
    e: Entries,
    kids: Seq<Tree>,
    j: int,
    m0: Map<PageId, Seq<u8>>,
    m1: Map<PageId, Seq<u8>>,
    n0: int,
)
    requires
        distinct(Tree::Node { id, entries: e, kids }),
        0 <= j < kids.len(),
        same_outside(m0, m1, kids[j], n0),
    ensures
        same_outside(m0, m1, Tree::Node { id, entries: e, kids }, n0),
{
    let t = Tree::Node { id, entries: e, kids };
    lemma_open_node(id, e, kids);
    assert forall|x: PageId| !has_id(t, x) && x < n0 implies (#[trigger] m1.contains_key(x)
        == m0.contains_key(x)) && m1[x] == m0[x] by {
        assert(!has_id(kids[j], x)) by {
            if has_id(kids[j], x) {
                assert(any_has_id(kids, x));
            }
        }
    }
}

/// An insert below child `j` keeps the links of the whole subtree.
#[verifier::spinoff_prover]
proof fn lemma_links_descend(
    id: PageId,
    e: Entries,
    kids: Seq<Tree>,
    j: int,
    c2: Tree,
    m0: Map<PageId, Seq<u8>>,
    m1: Map<PageId, Seq<u8>>,
    n0: int,
    own: Set<PageId>,
    lo: int,
    hi: int,
    next: PageId,
    depth: nat,
    key: Seq<u8>,
)
    requires
        ok(Tree::Node { id, entries: e, kids }, m0, own, lo, hi, next, depth),
        distinct(Tree::Node { id, entries: e, kids }),
        own_below(own, n0),
        0 <= j < kids.len(),
        links_kept(ids_of(kids[j]), ids_of(c2), m0, m1, key),
        same_outside(m0, m1, kids[j], n0),
    ensures
        ({
            let none = Seq::<(Seq<u8>, Seq<u8>)>::empty();
            let t2 = Tree::Node {
                id,
                entries: spliced_entries(e, j, 1, none),
                kids: spliced_kids(kids, j, 1, seq_one(c2)),
            };
            links_kept(ids_of(Tree::Node { id, entries: e, kids }), ids_of(t2), m0, m1, key)
        }),
{
    let t = Tree::Node { id, entries: e, kids };
    let c = kids[j];
    let none = Seq::<(Seq<u8>, Seq<u8>)>::empty();
    let e2 = spliced_entries(e, j, 1, none);
    let t2 = Tree::Node { id, entries: e2, kids: spliced_kids(kids, j, 1, seq_one(c2)) };
    let rest = ids_of(t).difference(ids_of(c));
    lemma_open_node(id, e, kids);
    lemma_spliced_ids(id, e, e2, kids, j, seq_one(c2));
    assert forall|x: PageId| #[trigger] rest.contains(x) implies m1[x] == m0[x] by {
        lemma_ids_owned(t, m0, own, lo, hi, next, depth, x);
        assert(m1.contains_key(x) == m0.contains_key(x));
    }
    lemma_kept_beside(ids_of(c), ids_of(c2), rest, m0, m1, key);
    assert(ids_of(c).union(rest) =~= ids_of(t)) by {
        assert forall|x: PageId| has_id(c, x) implies has_id(t, x) by {
            assert(has_id(kids[j], x));
            assert(any_has_id(kids, x));
        }
    }
    assert(forest(seq_one(c2)) =~= ids_of(c2)) by {
        assert(seq_one(c2)[0] == c2);
        assert forall|x: PageId| has_id(c2, x) implies any_has_id(seq_one(c2), x) by {
            assert(has_id(seq_one(c2)[0], x));
        }
    }
}

/// A child cut in two and then an insert into one half.
#[verifier::spinoff_prover]
proof fn lemma_links_after_split(
    id: PageId,
    e: Entries,
    kids: Seq<Tree>,
    i: int,
    e1: Entries,
    a: Tree,
    b: Tree,
    t2: Tree,
    sep: Seq<u8>,
    go_left: bool,
    m0: Map<PageId, Seq<u8>>,
    m1: Map<PageId, Seq<u8>>,
    m2: Map<PageId, Seq<u8>>,
    m3: Map<PageId, Seq<u8>>,
    n0: int,
    own: Set<PageId>,
    lo: int,
    hi: int,
    next: PageId,
    depth: nat,
    key: Seq<u8>,
)
    requires
        ok(Tree::Node { id, entries: e, kids }, m0, own, lo, hi, next, depth),
        distinct(Tree::Node { id, entries: e, kids }),
        own_below(own, n0),
        0 <= i < kids.len(),
        b.id() == n0,
        kids_distinct(two(a, b)),
        forall|x: PageId|
            #[trigger] any_has_id(two(a, b), x) ==> has_id(kids[i], x) || x == b.id(),
        links_cut(ids_of(kids[i]), forest(two(a, b)), m0, m1, b.id()),
        same_outside(m0, m1, kids[i], n0),
        m2 == m1.insert(id, m2[id]),
        !is_leaf(m2, id),
        is_leaf(m1, b.id()) ==> first_of(m1, b.id()) == Some(sep),
        go_left == (be_num(key) < be_num(sep)),
        ({
            let t1 = Tree::Node { id, entries: e1, kids: spliced_kids(kids, i, 1, two(a, b)) };
            links_kept(ids_of(t1), ids_of(t2), m2, m3, key)
        }),
        same_outside(
            m2,
            m3,
            (if go_left {
                a
            } else {
                b
            }),
            n0 + 1,
        ),
    ensures
        links_kept(ids_of(Tree::Node { id, entries: e, kids }), ids_of(t2), m0, m3, key),
        beside_kept(m0, m3, id, kids[i], n0),
{
    let t = Tree::Node { id, entries: e, kids };
    let c = kids[i];
    let cs = two(a, b);
    let z = b.id();
    let t1 = Tree::Node { id, entries: e1, kids: spliced_kids(kids, i, 1, cs) };
    let rest = ids_of(t).difference(ids_of(c));
    assert(cs[0] == a && cs[1] == b);
    lemma_open_node(id, e, kids);
    lemma_top_page(t, m0, own, lo, hi, next, depth);
    lemma_spliced_ids(id, e, e1, kids, i, cs);
    assert(!has_id(c, id)) by {
        if has_id(kids[i], id) {
            assert(any_has_id(kids, id));
        }
    }
    assert forall|x: PageId| #[trigger] forest(cs).contains(x) implies m2[x] == m1[x] by {
        assert(any_has_id(cs, x));
    }
    assert forall|x: PageId| #[trigger] rest.contains(x) && x != id implies m2[x] == m0[x] by {
        lemma_ids_owned(t, m0, own, lo, hi, next, depth, x);
        assert(m1.contains_key(x) == m0.contains_key(x));
    }
    lemma_cut_beside(ids_of(c), forest(cs), rest, id, m0, m1, m2, z);
    assert(ids_of(c).union(rest) =~= ids_of(t)) by {
        assert forall|x: PageId| has_id(c, x) implies has_id(t, x) by {
            assert(has_id(kids[i], x));
            assert(any_has_id(kids, x));
        }
    }
    lemma_has_top(b);
    assert(has_id(cs[1], z));
    assert(any_has_id(cs, z));
    assert(m2[z] == m1[z]);
    if is_leaf(m2, z) {
        if go_left {
            assert(!has_id(a, z)) by {
                if has_id(cs[0], z) {
                    assert(!has_id(cs[1], z));
                }
            }
            assert(m3.contains_key(z) == m2.contains_key(z));
        } else {
            reveal(links_kept);
            assert(ids_of(t1).contains(z));
            assert(first_lowered(m2, m3, z, key));
        }
    }
    lemma_cut_then_kept(ids_of(t), ids_of(t1), ids_of(t2), m0, m2, m3, z, key);
    assert forall|x: PageId| x != id && !(#[trigger] has_id(c, x)) && x < n0 implies m3[x]
        == m0[x] by {
        let h = if go_left {
            a
        } else {
            b
        };
        assert(!has_id(h, x)) by {
            if has_id(h, x) {
                if go_left {
                    assert(has_id(cs[0], x));
                } else {
                    assert(has_id(cs[1], x));
                }
                assert(any_has_id(cs, x));
            }
        }
        assert(m1.contains_key(x) == m0.contains_key(x));
        assert(m3.contains_key(x) == m2.contains_key(x));
    }
}

/// Old pages outside subtree `c`, but for page `id`, are as before.
pub open spec fn beside_kept(
    m: Map<PageId, Seq<u8>>,
    m2: Map<PageId, Seq<u8>>,
    id: PageId,
    c: Tree,
    n0: int,
) -> bool {
    forall|x: PageId| x != id && !(#[trigger] has_id(c, x)) && x < n0 ==> m2[x] == m[x]
}

/// A child replaced by what an operation inside it made of it.
pub proof fn lemma_descend_step(
    t: Tree,
    id: PageId,
    e: Entries,
    kids: Seq<Tree>,
    j: int,
    c2: Tree,
    m0: Map<PageId, Seq<u8>>,
    m1: Map<PageId, Seq<u8>>,
    own: Set<PageId>,
    own2: Set<PageId>,
    lo: int,
    hi: int,
    next: PageId,
    depth: nat,
    n0: int,
)
    requires
        t == (Tree::Node { id, entries: e, kids }),
        ok(t, m0, own, lo, hi, next, depth),
        distinct(t),
        0 <= j < kids.len(),
        kids_ok(
            Seq::empty(),
            seq_one(c2),
            m1,
            own2,
            bound(e, lo, hi, j),
            bound(e, lo, hi, j + 1),
            next_of(kids, next, j),
            depth,
        ),
        distinct(c2),
        first_leaf(c2) == first_leaf(kids[j]),
        c2.id() == kids[j].id(),
        own.subset_of(own2),
        own_below(own, n0),
        forall|x: PageId| #[trigger] has_id(c2, x) ==> has_id(kids[j], x) || n0 <= x,
        forall|x: PageId|
            !has_id(kids[j], x) && x < n0 ==> (#[trigger] m1.contains_key(x) == m0.contains_key(x))
                && m1[x] == m0[x],
    ensures
        spliced_entries(e, j, 1, Seq::empty()) == e,
        ({
            let t2 = Tree::Node { id, entries: e, kids: spliced_kids(kids, j, 1, seq_one(c2)) };
            &&& ok(t2, m1, own2, lo, hi, next, depth)
            &&& distinct(t2)
            &&& first_leaf(t2) == first_leaf(t)
            &&& forall|x: PageId| #[trigger] has_id(t2, x) ==> has_id(t, x) || n0 <= x
            &&& forall|k: int|
                lo <= k < hi ==> #[trigger] lookup(t2, k) == (if bound(e, lo, hi, j) <= k < bound(
                    e,
                    lo,
                    hi,
                    j + 1,
                ) {
                    lookup(c2, k)
                } else {
                    lookup(t, k)
                })
        }),
{
    let none = Seq::<(Seq<u8>, Seq<u8>)>::empty();
    let cs = seq_one(c2);
    lemma_top_page(t, m0, own, lo, hi, next, depth);
    lemma_open_node(id, e, kids);
    let e2 = spliced_entries(e, j, 1, none);
    assert(e2 =~= e);
    assert(cs[0] == c2);
    let seg = kids.subrange(j, j + 1);
    assert(seg[0] == kids[j]);
    assert forall|x: PageId| #[trigger] any_has_id(cs, x) implies x != id && (any_has_id(seg, x)
        || !any_has_id(kids, x)) && (has_id(t, x) || n0 <= x) by {
        let q = choose|q: int| 0 <= q < cs.len() && #[trigger] has_id(cs[q], x);
        assert(has_id(c2, x));
        if has_id(kids[j], x) {
            assert(has_id(seg[0], x));
            assert(any_has_id(kids, x));
        } else if any_has_id(kids, x) || x == id {
            assert(has_id(t, x));
            lemma_ids_owned(t, m0, own, lo, hi, next, depth, x);
        }
    }
    assert forall|q: int, x: PageId|
        0 <= q < kids.len() && !(j <= q < j + 1) && #[trigger] has_id(
            kids[q],
            x,
        ) implies m1.contains_key(x) && m1[x] == m0[x] by {
        assert(any_has_id(kids, x));
        assert(has_id(t, x));
        lemma_ids_owned(t, m0, own, lo, hi, next, depth, x);
        assert(!has_id(kids[j], x)) by {
            if q < j {
                assert(!has_id(kids[j], x));
            } else if has_id(kids[j], x) {
                assert(!has_id(kids[q], x));
            }
        }
        assert(m1.contains_key(x) == m0.contains_key(x));
    }
    assert(super::tree_model::node_page_ok(m1, own2, id, e2, kids[0].id())) by {
        reveal(ok);
        assert(!has_id(kids[j], id)) by {
            if has_id(kids[j], id) {
                assert(any_has_id(kids, id));
            }
        }
        assert(m1.contains_key(id) == m0.contains_key(id));
    }
    lemma_replace(
        id,
        e,
        kids,
        j,
        1,
        none,
        cs,
        m0,
        m1,
        own,
        own2,
        lo,
        hi,
        next,
        depth,
    );
    let t2 = Tree::Node { id, entries: e2, kids: spliced_kids(kids, j, 1, cs) };
    assert forall|k: int| lo <= k < hi implies #[trigger] lookup(t2, k) == (if bound(e, lo, hi, j)
        <= k < bound(e, lo, hi, j + 1) {
        lookup(c2, k)
    } else {
        lookup(t, k)
    }) by {
        lemma_route_unique(key_nums(none), k, 0);
    }
}

/// A child split in two, with the page above rewritten.
proof fn lemma_split_step(
    t: Tree,
    id: PageId,
    e: Entries,
    kids: Seq<Tree>,
    i: int,
    mid: Entries,
    cs: Seq<Tree>,
    m0: Map<PageId, Seq<u8>>,
    m1: Map<PageId, Seq<u8>>,
    m2: Map<PageId, Seq<u8>>,
    own: Set<PageId>,
    own1: Set<PageId>,
    lo: int,
    hi: int,
    next: PageId,
    depth: nat,
    n0: int,
)
    requires
        t == (Tree::Node { id, entries: e, kids }),
        ok(t, m0, own, lo, hi, next, depth),
        distinct(t),
        0 <= i < kids.len(),
        kids_ok(
            mid,
            cs,
            m1,
            own1,
            bound(e, lo, hi, i),
            bound(e, lo, hi, i + 1),
            next_of(kids, next, i),
            depth,
        ),
        kids_distinct(cs),
        cs[0].id() == kids[i].id(),
        first_leaf(cs[0]) == first_leaf(kids[i]),
        own1 == grown(own, n0, n0 + 1),
        own_below(own, n0),
        forall|x: PageId| #[trigger] any_has_id(cs, x) ==> has_id(kids[i], x) || x == n0,
        same_outside(m0, m1, kids[i], n0),
        m2 == m1.insert(id, m2[id]),
        super::tree_model::node_page_ok(
            m2,
            own,
            id,
            spliced_entries(e, i, 1, mid),
            kids[0].id(),
        ),
        forall|k: int|
            bound(e, lo, hi, i) <= k < bound(e, lo, hi, i + 1) ==> #[trigger] lookup_kids(
                mid,
                cs,
                k,
            ) == lookup(kids[i], k),
    ensures
        ({
            let t1 = Tree::Node {
                id,
                entries: spliced_entries(e, i, 1, mid),
                kids: spliced_kids(kids, i, 1, cs),
            };
            &&& ok(t1, m2, own1, lo, hi, next, depth)
            &&& distinct(t1)
            &&& own_below(own1, n0 + 1)
            &&& first_leaf(t1) == first_leaf(t)
            &&& forall|x: PageId| #[trigger] has_id(t1, x) ==> has_id(t, x) || any_has_id(cs, x)
            &&& forall|k: int| lo <= k < hi ==> #[trigger] lookup(t1, k) == lookup(t, k)
        }),
{
    lemma_top_page(t, m0, own, lo, hi, next, depth);
    lemma_open_node(id, e, kids);
    let seg = kids.subrange(i, i + 1);
    assert(seg[0] == kids[i]);
    let lo1 = bound(e, lo, hi, i);
    let hi1 = bound(e, lo, hi, i + 1);
    assert forall|x: PageId| #[trigger] any_has_id(cs, x) implies x != id && (any_has_id(seg, x)
        || !any_has_id(kids, x)) by {
        if has_id(kids[i], x) {
            assert(has_id(seg[0], x));
            assert(any_has_id(kids, x));
        } else {
            if any_has_id(kids, x) || x == id {
                assert(has_id(t, x));
                lemma_ids_owned(t, m0, own, lo, hi, next, depth, x);
            }
        }
    }
    assert forall|q: int, x: PageId|
        0 <= q < kids.len() && !(i <= q < i + 1) && #[trigger] has_id(
            kids[q],
            x,
        ) implies m2.contains_key(x) && m2[x] == m0[x] by {
        assert(any_has_id(kids, x));
        assert(has_id(t, x));
        lemma_ids_owned(t, m0, own, lo, hi, next, depth, x);
        assert(!has_id(kids[i], x)) by {
            if q < i {
                assert(!has_id(kids[i], x));
            } else if has_id(kids[i], x) {
                assert(!has_id(kids[q], x));
            }
        }
        assert(m1.contains_key(x) == m0.contains_key(x));
    }
    lemma_kids_rewrite(mid, cs, m1, m2, own1, lo1, hi1, next_of(kids, next, i), depth, id);
    lemma_replace(id, e, kids, i, 1, mid, cs, m0, m2, own, own1, lo, hi, next, depth);
    let t1 = Tree::Node {
        id,
        entries: spliced_entries(e, i, 1, mid),
        kids: spliced_kids(kids, i, 1, cs),
    };
    lemma_lookup_node(id, e, kids, lo, hi);
    assert forall|k: int| lo <= k < hi implies #[trigger] lookup(t1, k) == lookup(t, k) by {
        if lo1 <= k < hi1 {
            super::tree_model::lemma_route_from_bounds(e, kids, lo, hi, k, i);
            assert(lookup_kids(mid, cs, k) == lookup(kids[i], k));
        }
    }
}

/// Rewriting one page that is not among the subtrees leaves them as they are.
pub proof fn lemma_kids_rewrite(
    e: Entries,
    kids: Seq<Tree>,
    m: Map<PageId, Seq<u8>>,
    m2: Map<PageId, Seq<u8>>,
    own: Set<PageId>,
    lo: int,
    hi: int,
    next: PageId,
    depth: nat,
    id: PageId,
)
    requires
        kids_ok(e, kids, m, own, lo, hi, next, depth),
        !any_has_id(kids, id),
        m2 == m.insert(id, m2[id]),
    ensures
        kids_ok(e, kids, m2, own, lo, hi, next, depth),
{
    assert forall|i: int| #![trigger kids[i]] 0 <= i < kids.len() implies ok(
        kids[i],
        m2,
        own,
        bound(e, lo, hi, i),
        bound(e, lo, hi, i + 1),
        next_of(kids, next, i),
        (depth - 1) as nat,
    ) by {
        assert forall|x: PageId| #[trigger] has_id(kids[i], x) implies m2.contains_key(x) && m2[x]
            == m[x] by {
            assert(any_has_id(kids, x));
            lemma_ids_owned(
                kids[i],
                m,
                own,
                bound(e, lo, hi, i),
                bound(e, lo, hi, i + 1),
                next_of(kids, next, i),
                (depth - 1) as nat,
                x,
            );
        }
        lemma_frame(
            kids[i],
            m,
            m2,
            own,
            own,
            bound(e, lo, hi, i),
            bound(e, lo, hi, i + 1),
            next_of(kids, next, i),
            (depth - 1) as nat,
        );
    }
}

/// Both halves of a full page that just fits have room.
proof fn lemma_half_room(c: Tree, a: Tree, b: Tree)
    requires
        HEADER_SIZE + c.entries().len() * (OFFSET_ENTRY_SIZE + entry_size_of(tree_type(c)))
            <= PAGE_SIZE,
        tree_type(a) == tree_type(c),
        tree_type(b) == tree_type(c),
        a.entries().len() < c.entries().len(),
        b.entries().len() < c.entries().len(),
    ensures
        has_room(a),
        has_room(b),
{
    let u = OFFSET_ENTRY_SIZE + entry_size_of(tree_type(c));
    let n = c.entries().len() as int;
    let x = a.entries().len() + 1;
    let y = b.entries().len() + 1;
    assert(x * u <= n * u && y * u <= n * u) by (nonlinear_arith)
        requires
            x <= n,
            y <= n,
            u >= 0,
    ;
}

/// Which of the two halves the key belongs to.
proof fn lemma_split_route(
    e: Entries,
    kids: Seq<Tree>,
    i: int,
    mid: Entries,
    cs: Seq<Tree>,
    lo: int,
    hi: int,
    k: int,
    j: int,
)
    requires
        0 <= i < kids.len(),
        kids.len() == e.len() + 1,
        mid.len() == 1,
        cs.len() == 2,
        bound(e, lo, hi, i) <= k < bound(e, lo, hi, i + 1),
        j == (if k < be_num(mid[0].0) {
            i
        } else {
            i + 1
        }),
    ensures
        bound(spliced_entries(e, i, 1, mid), lo, hi, j) <= k < bound(
            spliced_entries(e, i, 1, mid),
            lo,
            hi,
            j + 1,
        ),
{
    let e1 = spliced_entries(e, i, 1, mid);
    assert(e1.len() == e.len() + 1);
    assert(e1[i] == mid[0]);
    if i > 0 {
        assert(e1[i - 1] == e[i - 1]);
    }
    if i < e.len() {
        assert(e1[i + 1] == e[i]);
    }
}

} // verus!
