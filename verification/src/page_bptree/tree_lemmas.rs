//! How subtrees are taken apart and put together.
use vstd::prelude::*;

use super::node_page::{ascending, key_nums};
use super::tree_model::{any_has_id, bound, distinct, first_leaf, has_id, keys_ok, kids_distinct,
    kids_ok, leaf_get, link_at, lemma_bounds, lemma_frame, lemma_leaf_get, lemma_route_bounds,
    lemma_route_from_bounds, lookup, next_of, ok, route, seps_ok, Entries, Tree};
use crate::common::PageId;
use crate::key_order::{be_num, is_key};
use crate::layout::u64_at;

verus! {

/// The payload of `k` below an internal page.
pub open spec fn lookup_kids(e: Entries, kids: Seq<Tree>, k: int) -> Option<Seq<u8>> {
    lookup(kids[route(key_nums(e), k)], k)
}

pub proof fn lemma_bound_mono(e: Entries, kids: Seq<Tree>, lo: int, hi: int, i: int, j: int)
    requires
        seps_ok(e, kids, lo, hi),
        0 <= i < j <= kids.len(),
    ensures
        bound(e, lo, hi, i) < bound(e, lo, hi, j),
    decreases j,
{
    lemma_bounds(e, kids, lo, hi, j - 1);
    if i < j - 1 {
        lemma_bound_mono(e, kids, lo, hi, i, j - 1);
    }
}

/// The entries after `a` children from `i` on were replaced.
pub open spec fn spliced_entries(e: Entries, i: int, a: int, mid: Entries) -> Entries {
    e.take(i) + mid + e.skip(i + a - 1)
}

/// The children after `a` of them from `i` on were replaced.
pub open spec fn spliced_kids(kids: Seq<Tree>, i: int, a: int, cs: Seq<Tree>) -> Seq<Tree> {
    kids.take(i) + cs + kids.skip(i + a)
}

proof fn lemma_spliced_bounds(
    e: Entries,
    kids: Seq<Tree>,
    i: int,
    a: int,
    mid: Entries,
    cs: Seq<Tree>,
    lo: int,
    hi: int,
)
    requires
        seps_ok(e, kids, lo, hi),
        0 <= i,
        1 <= a,
        i + a <= kids.len(),
        cs.len() >= 1,
        seps_ok(mid, cs, bound(e, lo, hi, i), bound(e, lo, hi, i + a)),
        cs[0].id() == kids[i].id(),
    ensures
        seps_ok(spliced_entries(e, i, a, mid), spliced_kids(kids, i, a, cs), lo, hi),
        forall|j: int|
            0 <= j <= i ==> bound(spliced_entries(e, i, a, mid), lo, hi, j) == #[trigger] bound(
                e,
                lo,
                hi,
                j,
            ),
        forall|j: int|
            0 <= j <= cs.len() ==> bound(spliced_entries(e, i, a, mid), lo, hi, i + j)
                == #[trigger] bound(mid, bound(e, lo, hi, i), bound(e, lo, hi, i + a), j),
        forall|j: int|
            i + a <= j <= kids.len() ==> bound(
                spliced_entries(e, i, a, mid),
                lo,
                hi,
                j - a + cs.len(),
            ) == #[trigger] bound(e, lo, hi, j),
        forall|j: int| i + a - 1 <= j < e.len() ==> spliced_entries(e, i, a, mid)[j - a + cs.len()] == #[trigger] e[j],
{
    let e2 = spliced_entries(e, i, a, mid);
    let k2 = spliced_kids(kids, i, a, cs);
    let lo1 = bound(e, lo, hi, i);
    let hi1 = bound(e, lo, hi, i + a);
    let b = cs.len() as int;
    assert(e2.len() == e.len() - a + b);
    assert forall|j: int| 0 <= j < e2.len() implies (j < i ==> (#[trigger] e2[j]) == e[j]) && (i <= j
        < i + b - 1 ==> e2[j] == mid[j - i]) && (j >= i + b - 1 ==> e2[j] == e[j - b + a]) by {}
    assert forall|j: int| i + a - 1 <= j < e.len() implies e2[j - a + b] == #[trigger] e[j] by {}
    let ks2 = key_nums(e2);
    if i > 0 {
        lemma_bound_mono(e, kids, lo, hi, 0, i);
    }
    if i + a < kids.len() {
        lemma_bound_mono(e, kids, lo, hi, i + a, kids.len() as int);
    }
    let ks = key_nums(e);
    let ksm = key_nums(mid);
    assert forall|x: int, y: int| 0 <= x < y < ks2.len() implies #[trigger] ks2[x]
        < #[trigger] ks2[y] by {
        let nx = be_num(e2[x].0);
        let ny = be_num(e2[y].0);
        assert(ks2[x] == nx && ks2[y] == ny);
        if y < i {
            assert(ks[x] < ks[y]);
        } else if x >= i + b - 1 {
            assert(ks[x - b + a] < ks[y - b + a]);
        } else if x >= i && y < i + b - 1 {
            assert(ksm[x - i] < ksm[y - i]);
        } else {
            // the two lie on different sides of a limit of the replaced part
            if x < i {
                assert(ks[x] == nx);
                assert(nx <= lo1) by {
                    if x < i - 1 {
                        assert(ks[x] < ks[i - 1]);
                    }
                }
            } else {
                assert(mid[x - i] == e2[x]);
                assert(lo1 < nx < hi1);
            }
            if y >= i + b - 1 {
                assert(ks[y - b + a] == ny);
                assert(hi1 <= ny) by {
                    if y - b + a > i + a - 1 {
                        assert(ks[i + a - 1] < ks[y - b + a]);
                    }
                }
            } else {
                assert(mid[y - i] == e2[y]);
                assert(lo1 < ny < hi1);
            }
        }
    }
    assert(ascending(ks2));
    assert forall|j: int| 0 <= j < e2.len() implies is_key((#[trigger] e2[j]).0) && lo < be_num(
        e2[j].0,
    ) < hi by {
        if j < i {
            assert(e2[j] == e[j]);
        } else if j < i + b - 1 {
            assert(e2[j] == mid[j - i]);
        } else {
            assert(e2[j] == e[j - b + a]);
        }
    }
    assert forall|j: int| 0 <= j < e2.len() implies #[trigger] link_at(e2, k2, j) by {
        reveal(link_at);
        if j < i {
            assert(e2[j] == e[j]);
            assert(link_at(e, kids, j));
            if j + 1 == i {
                assert(k2[j + 1] == cs[0]);
            } else {
                assert(k2[j + 1] == kids[j + 1]);
            }
        } else if j < i + b - 1 {
            assert(e2[j] == mid[j - i]);
            assert(link_at(mid, cs, j - i));
            assert(k2[j + 1] == cs[j - i + 1]);
        } else {
            assert(e2[j] == e[j - b + a]);
            assert(link_at(e, kids, j - b + a));
            assert(k2[j + 1] == kids[j - b + a + 1]);
        }
    }
}

proof fn lemma_segment_kid(
    e: Entries,
    kids: Seq<Tree>,
    i: int,
    a: int,
    mid: Entries,
    cs: Seq<Tree>,
    m: Map<PageId, Seq<u8>>,
    m2: Map<PageId, Seq<u8>>,
    own: Set<PageId>,
    own2: Set<PageId>,
    lo: int,
    hi: int,
    next: PageId,
    depth: nat,
    j: int,
)
    requires
        kids_ok(e, kids, m, own, lo, hi, next, depth),
        0 <= i,
        1 <= a,
        i + a <= kids.len(),
        kids_ok(
            mid,
            cs,
            m2,
            own2,
            bound(e, lo, hi, i),
            bound(e, lo, hi, i + a),
            next_of(kids, next, i + a - 1),
            depth,
        ),
        first_leaf(cs[0]) == first_leaf(kids[i]),
        cs[0].id() == kids[i].id(),
        own.subset_of(own2),
        forall|j: int, x: PageId|
            0 <= j < kids.len() && !(i <= j < i + a) && #[trigger] has_id(kids[j], x)
                ==> m2.contains_key(x) && m2[x] == m[x],
        0 <= j < spliced_kids(kids, i, a, cs).len(),
    ensures
        ok(
            spliced_kids(kids, i, a, cs)[j],
            m2,
            own2,
            bound(spliced_entries(e, i, a, mid), lo, hi, j),
            bound(spliced_entries(e, i, a, mid), lo, hi, j + 1),
            next_of(spliced_kids(kids, i, a, cs), next, j),
            (depth - 1) as nat,
        ),
{
    let e2 = spliced_entries(e, i, a, mid);
    let k2 = spliced_kids(kids, i, a, cs);
    let lo1 = bound(e, lo, hi, i);
    let hi1 = bound(e, lo, hi, i + a);
    let next1 = next_of(kids, next, i + a - 1);
    let b = cs.len() as int;
    lemma_spliced_bounds(e, kids, i, a, mid, cs, lo, hi);
    if j < i {
        assert(k2[j] == kids[j]);
        assert(bound(e2, lo, hi, j) == bound(e, lo, hi, j));
        assert(bound(e2, lo, hi, j + 1) == bound(e, lo, hi, j + 1));
        if j + 1 == i {
            assert(k2[j + 1] == cs[0]);
        } else {
            assert(k2[j + 1] == kids[j + 1]);
        }
        assert(next_of(k2, next, j) == next_of(kids, next, j)) by {
            reveal(next_of);
        }
        lemma_frame(
            kids[j],
            m,
            m2,
            own,
            own2,
            bound(e, lo, hi, j),
            bound(e, lo, hi, j + 1),
            next_of(kids, next, j),
            (depth - 1) as nat,
        );
    } else if j < i + b {
        let q = j - i;
        assert(k2[j] == cs[q]);
        assert(bound(mid, lo1, hi1, q) == bound(e2, lo, hi, j));
        assert(bound(mid, lo1, hi1, q + 1) == bound(e2, lo, hi, j + 1));
        if q + 1 < b {
            assert(k2[j + 1] == cs[q + 1]);
        } else if j + 1 < k2.len() {
            assert(k2[j + 1] == kids[i + a]);
        }
        assert(next_of(k2, next, j) == next_of(cs, next1, q)) by {
            reveal(next_of);
        }
    } else {
        let q = j - b + a;
        assert(k2[j] == kids[q]);
        assert(bound(e, lo, hi, q) == bound(e2, lo, hi, j));
        assert(bound(e, lo, hi, q + 1) == bound(e2, lo, hi, j + 1));
        if j + 1 < k2.len() {
            assert(k2[j + 1] == kids[q + 1]);
        }
        assert(next_of(k2, next, j) == next_of(kids, next, q)) by {
            reveal(next_of);
        }
        lemma_frame(
            kids[q],
            m,
            m2,
            own,
            own2,
            bound(e, lo, hi, q),
            bound(e, lo, hi, q + 1),
            next_of(kids, next, q),
            (depth - 1) as nat,
        );
    }
}

#[verifier::spinoff_prover]
proof fn lemma_segment_lookup(
    e: Entries,
    kids: Seq<Tree>,
    i: int,
    a: int,
    mid: Entries,
    cs: Seq<Tree>,
    lo: int,
    hi: int,
    k: int,
)
    requires
        seps_ok(e, kids, lo, hi),
        0 <= i,
        1 <= a,
        i + a <= kids.len(),
        cs.len() >= 1,
        seps_ok(mid, cs, bound(e, lo, hi, i), bound(e, lo, hi, i + a)),
        cs[0].id() == kids[i].id(),
        lo <= k < hi,
    ensures
        lookup_kids(
            spliced_entries(e, i, a, mid),
            spliced_kids(kids, i, a, cs),
            k,
        ) == (if bound(e, lo, hi, i) <= k < bound(e, lo, hi, i + a) {
            lookup_kids(mid, cs, k)
        } else {
            lookup_kids(e, kids, k)
        }),
{
    let e2 = spliced_entries(e, i, a, mid);
    let k2 = spliced_kids(kids, i, a, cs);
    let lo1 = bound(e, lo, hi, i);
    let hi1 = bound(e, lo, hi, i + a);
    let b = cs.len() as int;
    lemma_spliced_bounds(e, kids, i, a, mid, cs, lo, hi);
    if lo1 <= k < hi1 {
        lemma_route_bounds(mid, cs, lo1, hi1, k);
        let q = route(key_nums(mid), k);
        assert(bound(mid, lo1, hi1, q) == bound(e2, lo, hi, i + q));
        assert(bound(mid, lo1, hi1, q + 1) == bound(e2, lo, hi, i + (q + 1)));
        lemma_route_from_bounds(e2, k2, lo, hi, k, i + q);
        assert(k2[i + q] == cs[q]);
    } else {
        lemma_route_bounds(e, kids, lo, hi, k);
        let q = route(key_nums(e), k);
        if k < lo1 {
            if q >= i {
                if i < q {
                    lemma_bound_mono(e, kids, lo, hi, i, q);
                }
            }
            assert(bound(e, lo, hi, q) == bound(e2, lo, hi, q));
            assert(bound(e, lo, hi, q + 1) == bound(e2, lo, hi, q + 1));
            lemma_route_from_bounds(e2, k2, lo, hi, k, q);
            assert(k2[q] == kids[q]);
        } else {
            if q < i + a {
                if q + 1 < i + a {
                    lemma_bound_mono(e, kids, lo, hi, q + 1, i + a);
                }
            }
            assert(bound(e, lo, hi, q) == bound(e2, lo, hi, q - a + b));
            assert(bound(e, lo, hi, q + 1) == bound(e2, lo, hi, (q + 1) - a + b));
            lemma_route_from_bounds(e2, k2, lo, hi, k, q - a + b);
            assert(k2[q - a + b] == kids[q]);
        }
    }
}

/// Replacing some neighbouring children by others that cover the same keys.
pub proof fn lemma_segment(
    e: Entries,
    kids: Seq<Tree>,
    i: int,
    a: int,
    mid: Entries,
    cs: Seq<Tree>,
    m: Map<PageId, Seq<u8>>,
    m2: Map<PageId, Seq<u8>>,
    own: Set<PageId>,
    own2: Set<PageId>,
    lo: int,
    hi: int,
    next: PageId,
    depth: nat,
)
    requires
        kids_ok(e, kids, m, own, lo, hi, next, depth),
        0 <= i,
        1 <= a,
        i + a <= kids.len(),
        kids_ok(
            mid,
            cs,
            m2,
            own2,
            bound(e, lo, hi, i),
            bound(e, lo, hi, i + a),
            next_of(kids, next, i + a - 1),
            depth,
        ),
        first_leaf(cs[0]) == first_leaf(kids[i]),
        cs[0].id() == kids[i].id(),
        own.subset_of(own2),
        forall|j: int, x: PageId|
            0 <= j < kids.len() && !(i <= j < i + a) && #[trigger] has_id(kids[j], x)
                ==> m2.contains_key(x) && m2[x] == m[x],
    ensures
        kids_ok(
            spliced_entries(e, i, a, mid),
            spliced_kids(kids, i, a, cs),
            m2,
            own2,
            lo,
            hi,
            next,
            depth,
        ),
        first_leaf(spliced_kids(kids, i, a, cs)[0]) == first_leaf(kids[0]),
        spliced_kids(kids, i, a, cs)[0].id() == kids[0].id(),
        forall|k: int|
            lo <= k < hi ==> #[trigger] lookup_kids(
                spliced_entries(e, i, a, mid),
                spliced_kids(kids, i, a, cs),
                k,
            ) == (if bound(e, lo, hi, i) <= k < bound(e, lo, hi, i + a) {
                lookup_kids(mid, cs, k)
            } else {
                lookup_kids(e, kids, k)
            }),
{
    let e2 = spliced_entries(e, i, a, mid);
    let k2 = spliced_kids(kids, i, a, cs);
    let lo1 = bound(e, lo, hi, i);
    let hi1 = bound(e, lo, hi, i + a);
    let next1 = next_of(kids, next, i + a - 1);
    let b = cs.len() as int;
    lemma_spliced_bounds(e, kids, i, a, mid, cs, lo, hi);
    assert(k2.len() == kids.len() - a + b);
    assert forall|j: int| #![trigger k2[j]] 0 <= j < k2.len() implies ok(
        k2[j],
        m2,
        own2,
        bound(e2, lo, hi, j),
        bound(e2, lo, hi, j + 1),
        next_of(k2, next, j),
        (depth - 1) as nat,
    ) by {
        lemma_segment_kid(e, kids, i, a, mid, cs, m, m2, own, own2, lo, hi, next, depth, j);
    }
    if i == 0 {
        assert(k2[0] == cs[0]);
    } else {
        assert(k2[0] == kids[0]);
    }
    assert forall|k: int| lo <= k < hi implies #[trigger] lookup_kids(e2, k2, k) == (if lo1 <= k
        < hi1 {
        lookup_kids(mid, cs, k)
    } else {
        lookup_kids(e, kids, k)
    }) by {
        lemma_segment_lookup(e, kids, i, a, mid, cs, lo, hi, k);
    }
}

/// Pages stay distinct when neighbouring children are replaced by children
/// made of their pages and of new ones.
pub proof fn lemma_segment_distinct(kids: Seq<Tree>, i: int, a: int, cs: Seq<Tree>)
    requires
        kids_distinct(kids),
        kids_distinct(cs),
        0 <= i,
        0 <= a,
        i + a <= kids.len(),
        forall|x: PageId|
            #[trigger] any_has_id(cs, x) ==> any_has_id(kids.subrange(i, i + a), x) || !any_has_id(
                kids,
                x,
            ),
    ensures
        kids_distinct(spliced_kids(kids, i, a, cs)),
        forall|x: PageId|
            #[trigger] any_has_id(spliced_kids(kids, i, a, cs), x) ==> any_has_id(kids, x)
                || any_has_id(cs, x),
{
    let k2 = spliced_kids(kids, i, a, cs);
    let b = cs.len() as int;
    assert forall|j: int| #![trigger k2[j]] 0 <= j < k2.len() implies distinct(k2[j]) by {
        if j < i {
            assert(k2[j] == kids[j]);
        } else if j < i + b {
            assert(k2[j] == cs[j - i]);
        } else {
            assert(k2[j] == kids[j - b + a]);
        }
    }
    // a page of the replacement is in no child that stays
    assert forall|x: PageId, p: int, q: int|
        0 <= p < cs.len() && #[trigger] has_id(cs[p], x) && 0 <= q < kids.len() && !(i <= q < i
            + a) implies !(#[trigger] has_id(kids[q], x)) by {
        assert(any_has_id(cs, x));
        if has_id(kids[q], x) {
            assert(any_has_id(kids, x));
            let seg = kids.subrange(i, i + a);
            let r = choose|r: int| 0 <= r < seg.len() && #[trigger] has_id(seg[r], x);
            assert(seg[r] == kids[i + r]);
            assert(has_id(kids[i + r], x));
            if q < i + r {
                assert(!has_id(kids[i + r], x));
            } else {
                assert(!has_id(kids[q], x));
            }
        }
    }
    assert forall|p: int, q: int, x: PageId|
        0 <= p < q < k2.len() && #[trigger] has_id(k2[p], x) implies !(#[trigger] has_id(
        k2[q],
        x,
    )) by {
        if p < i {
            assert(k2[p] == kids[p]);
        } else if p < i + b {
            assert(k2[p] == cs[p - i]);
        } else {
            assert(k2[p] == kids[p - b + a]);
        }
        if q < i {
            assert(k2[q] == kids[q]);
        } else if q < i + b {
            assert(k2[q] == cs[q - i]);
        } else {
            assert(k2[q] == kids[q - b + a]);
        }
    }
    assert forall|x: PageId| #[trigger] any_has_id(k2, x) implies any_has_id(kids, x) || any_has_id(
        cs,
        x,
    ) by {
        let p = choose|p: int| 0 <= p < k2.len() && #[trigger] has_id(k2[p], x);
        if p < i {
            assert(has_id(kids[p], x));
        } else if p < i + b {
            assert(has_id(cs[p - i], x));
        } else {
            assert(has_id(kids[p - b + a], x));
        }
    }
}

/// Cutting the children of an internal page in two at entry `p`.
pub proof fn lemma_cut(
    e: Entries,
    kids: Seq<Tree>,
    p: int,
    m: Map<PageId, Seq<u8>>,
    own: Set<PageId>,
    lo: int,
    hi: int,
    next: PageId,
    depth: nat,
)
    requires
        kids_ok(e, kids, m, own, lo, hi, next, depth),
        0 <= p < e.len(),
    ensures
        kids_ok(
            e.take(p),
            kids.take(p + 1),
            m,
            own,
            lo,
            be_num(e[p].0),
            first_leaf(kids[p + 1]),
            depth,
        ),
        kids_ok(e.skip(p + 1), kids.skip(p + 1), m, own, be_num(e[p].0), hi, next, depth),
        forall|k: int|
            lo <= k < be_num(e[p].0) ==> #[trigger] lookup_kids(e.take(p), kids.take(p + 1), k)
                == lookup_kids(e, kids, k),
        forall|k: int|
            be_num(e[p].0) <= k < hi ==> #[trigger] lookup_kids(
                e.skip(p + 1),
                kids.skip(p + 1),
                k,
            ) == lookup_kids(e, kids, k),
{
    let s = be_num(e[p].0);
    let e1 = e.take(p);
    let k1 = kids.take(p + 1);
    let e2 = e.skip(p + 1);
    let k2 = kids.skip(p + 1);
    let ks = key_nums(e);
    assert(ks[p] == s);
    assert(seps_ok(e1, k1, lo, s)) by {
        let ks1 = key_nums(e1);
        assert forall|x: int, y: int| 0 <= x < y < ks1.len() implies #[trigger] ks1[x]
            < #[trigger] ks1[y] by {
            assert(ks[x] < ks[y]);
        }
        assert forall|x: int| 0 <= x < e1.len() implies is_key((#[trigger] e1[x]).0) && lo < be_num(
            e1[x].0,
        ) < s by {
            assert(e1[x] == e[x]);
            assert(ks[x] < ks[p]);
        }
        assert forall|x: int| 0 <= x < e1.len() implies #[trigger] link_at(e1, k1, x) by {
            reveal(link_at);
            assert(link_at(e, kids, x));
        }
    }
    assert(seps_ok(e2, k2, s, hi)) by {
        let ks2 = key_nums(e2);
        assert forall|x: int, y: int| 0 <= x < y < ks2.len() implies #[trigger] ks2[x]
            < #[trigger] ks2[y] by {
            assert(ks[x + p + 1] < ks[y + p + 1]);
        }
        assert forall|x: int| 0 <= x < e2.len() implies is_key((#[trigger] e2[x]).0) && s < be_num(
            e2[x].0,
        ) < hi by {
            assert(e2[x] == e[x + p + 1]);
            assert(ks[p] < ks[x + p + 1]);
        }
        assert forall|x: int| 0 <= x < e2.len() implies #[trigger] link_at(e2, k2, x) by {
            reveal(link_at);
            assert(link_at(e, kids, x + p + 1));
        }
    }
    assert forall|j: int| #![trigger k1[j]] 0 <= j < k1.len() implies ok(
        k1[j],
        m,
        own,
        bound(e1, lo, s, j),
        bound(e1, lo, s, j + 1),
        next_of(k1, first_leaf(kids[p + 1]), j),
        (depth - 1) as nat,
    ) by {
        assert(k1[j] == kids[j]);
        assert(bound(e1, lo, s, j) == bound(e, lo, hi, j));
        assert(bound(e1, lo, s, j + 1) == bound(e, lo, hi, j + 1));
        assert(next_of(k1, first_leaf(kids[p + 1]), j) == next_of(kids, next, j)) by {
                reveal(next_of);
            }
    }
    assert forall|j: int| #![trigger k2[j]] 0 <= j < k2.len() implies ok(
        k2[j],
        m,
        own,
        bound(e2, s, hi, j),
        bound(e2, s, hi, j + 1),
        next_of(k2, next, j),
        (depth - 1) as nat,
    ) by {
        assert(k2[j] == kids[j + p + 1]);
        assert(bound(e2, s, hi, j) == bound(e, lo, hi, j + p + 1));
        assert(bound(e2, s, hi, j + 1) == bound(e, lo, hi, j + p + 2));
        assert(next_of(k2, next, j) == next_of(kids, next, j + p + 1)) by {
                reveal(next_of);
            }
    }
    assert forall|k: int| lo <= k < s implies #[trigger] lookup_kids(e1, k1, k) == lookup_kids(
        e,
        kids,
        k,
    ) by {
        lemma_route_bounds(e1, k1, lo, s, k);
        let q = route(key_nums(e1), k);
        assert(bound(e1, lo, s, q) == bound(e, lo, hi, q));
        assert(bound(e1, lo, s, q + 1) == bound(e, lo, hi, q + 1));
        lemma_route_from_bounds(e, kids, lo, hi, k, q);
        assert(k1[q] == kids[q]);
    }
    assert forall|k: int| s <= k < hi implies #[trigger] lookup_kids(e2, k2, k) == lookup_kids(
        e,
        kids,
        k,
    ) by {
        lemma_route_bounds(e2, k2, s, hi, k);
        let q = route(key_nums(e2), k);
        assert(bound(e2, s, hi, q) == bound(e, lo, hi, q + p + 1));
        assert(bound(e2, s, hi, q + 1) == bound(e, lo, hi, q + p + 2));
        lemma_route_from_bounds(e, kids, lo, hi, k, q + p + 1);
        assert(k2[q] == kids[q + p + 1]);
    }
}

/// Putting the children of two neighbouring internal pages together around
/// the separator between them.
pub proof fn lemma_join(
    e1: Entries,
    k1: Seq<Tree>,
    sep: (Seq<u8>, Seq<u8>),
    e2: Entries,
    k2: Seq<Tree>,
    m: Map<PageId, Seq<u8>>,
    own: Set<PageId>,
    lo: int,
    hi: int,
    next: PageId,
    depth: nat,
)
    requires
        k2.len() > 0,
        kids_ok(e1, k1, m, own, lo, be_num(sep.0), first_leaf(k2[0]), depth),
        kids_ok(e2, k2, m, own, be_num(sep.0), hi, next, depth),
        is_key(sep.0),
        u64_at(sep.1, 0) == k2[0].id(),
    ensures
        kids_ok(e1.push(sep) + e2, k1 + k2, m, own, lo, hi, next, depth),
        (e1.push(sep) + e2).take(e1.len() as int) == e1,
        (k1 + k2).take(k1.len() as int) == k1,
        (e1.push(sep) + e2).skip(e1.len() as int + 1) == e2,
        (k1 + k2).skip(k1.len() as int) == k2,
        forall|k: int|
            lo <= k < hi ==> #[trigger] lookup_kids(e1.push(sep) + e2, k1 + k2, k) == (if k
                < be_num(sep.0) {
                lookup_kids(e1, k1, k)
            } else {
                lookup_kids(e2, k2, k)
            }),
{
    let e = e1.push(sep) + e2;
    let kids = k1 + k2;
    let s = be_num(sep.0);
    let n1 = e1.len() as int;
    assert(e.take(n1) =~= e1);
    assert(kids.take(k1.len() as int) =~= k1);
    assert(e.skip(n1 + 1) =~= e2);
    assert(kids.skip(k1.len() as int) =~= k2);
    let ks = key_nums(e);
    let ks1 = key_nums(e1);
    let ks2 = key_nums(e2);
    assert forall|x: int| 0 <= x < e.len() implies (x < n1 ==> (#[trigger] e[x]) == e1[x]) && (x
        == n1 ==> e[x] == sep) && (x > n1 ==> e[x] == e2[x - n1 - 1]) by {}
    assert(seps_ok(e, kids, lo, hi)) by {
        assert forall|x: int, y: int| 0 <= x < y < ks.len() implies #[trigger] ks[x]
            < #[trigger] ks[y] by {
            let nx = be_num(e[x].0);
            let ny = be_num(e[y].0);
            assert(ks[x] == nx && ks[y] == ny);
            if y < n1 {
                assert(ks1[x] < ks1[y]);
            } else if x > n1 {
                assert(ks2[x - n1 - 1] < ks2[y - n1 - 1]);
            } else {
                if x < n1 {
                    assert(e1[x] == e[x]);
                    assert(nx < s);
                }
                if y > n1 {
                    assert(e2[y - n1 - 1] == e[y]);
                    assert(s < ny);
                }
            }
        }
        assert forall|x: int| 0 <= x < e.len() implies is_key((#[trigger] e[x]).0) && lo < be_num(
            e[x].0,
        ) < hi by {
            if x < n1 {
                assert(e1[x] == e[x]);
            } else if x > n1 {
                assert(e2[x - n1 - 1] == e[x]);
            }
        }
        assert forall|x: int| 0 <= x < e.len() implies #[trigger] link_at(e, kids, x) by {
            reveal(link_at);
            if x < n1 {
                assert(link_at(e1, k1, x));
                assert(kids[x + 1] == k1[x + 1]);
            } else if x == n1 {
                assert(kids[x + 1] == k2[0]);
            } else {
                assert(link_at(e2, k2, x - n1 - 1));
                assert(kids[x + 1] == k2[x - n1]);
            }
        }
    }
    assert forall|j: int| #![trigger kids[j]] 0 <= j < kids.len() implies ok(
        kids[j],
        m,
        own,
        bound(e, lo, hi, j),
        bound(e, lo, hi, j + 1),
        next_of(kids, next, j),
        (depth - 1) as nat,
    ) by {
        if j <= n1 {
            assert(kids[j] == k1[j]);
            assert(bound(e1, lo, s, j) == bound(e, lo, hi, j));
            assert(bound(e1, lo, s, j + 1) == bound(e, lo, hi, j + 1));
            if j < n1 {
                assert(kids[j + 1] == k1[j + 1]);
            } else {
                assert(kids[j + 1] == k2[0]);
            }
            assert(next_of(k1, first_leaf(k2[0]), j) == next_of(kids, next, j)) by {
                reveal(next_of);
            }
        } else {
            let q = j - n1 - 1;
            assert(kids[j] == k2[q]);
            assert(bound(e2, s, hi, q) == bound(e, lo, hi, j));
            assert(bound(e2, s, hi, q + 1) == bound(e, lo, hi, j + 1));
            if q + 1 < k2.len() {
                assert(kids[j + 1] == k2[q + 1]);
            }
            assert(next_of(k2, next, q) == next_of(kids, next, j)) by {
                reveal(next_of);
            }
        }
    }
    assert(e[n1] == sep);
    assert(kids[n1 + 1] == k2[0]);
    lemma_cut(e, kids, n1, m, own, lo, hi, next, depth);
    assert forall|k: int| lo <= k < hi implies #[trigger] lookup_kids(e, kids, k) == (if k < s {
        lookup_kids(e1, k1, k)
    } else {
        lookup_kids(e2, k2, k)
    }) by {
        assert(lookup_kids(e.take(n1), kids.take(n1 + 1), k) == lookup_kids(e1, k1, k));
        assert(lookup_kids(e.skip(n1 + 1), kids.skip(n1 + 1), k) == lookup_kids(e2, k2, k));
    }
}

/// Cutting the entries of a leaf in two at entry `p`.
pub proof fn lemma_cut_leaf(e: Entries, p: int, lo: int, hi: int)
    requires
        keys_ok(e, lo, hi),
        0 < p < e.len(),
    ensures
        lo < be_num(e[p].0) < hi,
        keys_ok(e.take(p), lo, be_num(e[p].0)),
        keys_ok(e.skip(p), be_num(e[p].0), hi),
        forall|k: int|
            k < be_num(e[p].0) ==> #[trigger] leaf_get(e.take(p), k) == leaf_get(e, k),
        forall|k: int|
            be_num(e[p].0) <= k ==> #[trigger] leaf_get(e.skip(p), k) == leaf_get(e, k),
{
    let s = be_num(e[p].0);
    let e1 = e.take(p);
    let e2 = e.skip(p);
    let ks = key_nums(e);
    assert(ks[p] == s);
    assert(ks[0] < ks[p]);
    assert(lo <= be_num(e[0].0));
    let ks1 = key_nums(e1);
    let ks2 = key_nums(e2);
    assert forall|x: int, y: int| 0 <= x < y < ks1.len() implies #[trigger] ks1[x]
        < #[trigger] ks1[y] by {
        assert(ks[x] < ks[y]);
    }
    assert forall|x: int, y: int| 0 <= x < y < ks2.len() implies #[trigger] ks2[x]
        < #[trigger] ks2[y] by {
        assert(ks[x + p] < ks[y + p]);
    }
    assert forall|x: int| 0 <= x < e1.len() implies is_key((#[trigger] e1[x]).0) && lo <= be_num(
        e1[x].0,
    ) < s by {
        assert(e1[x] == e[x]);
        assert(ks[x] < ks[p]);
    }
    assert forall|x: int| 0 <= x < e2.len() implies is_key((#[trigger] e2[x]).0) && s <= be_num(
        e2[x].0,
    ) < hi by {
        assert(e2[x] == e[x + p]);
        if x > 0 {
            assert(ks[p] < ks[x + p]);
        }
    }
    assert forall|k: int| k < s implies #[trigger] leaf_get(e1, k) == leaf_get(e, k) by {
        if exists|i: int| 0 <= i < e.len() && be_num((#[trigger] e[i]).0) == k {
            let i = choose|i: int| 0 <= i < e.len() && be_num((#[trigger] e[i]).0) == k;
            if i >= p {
                assert(e2[i - p] == e[i]);
            }
            assert(e1[i] == e[i]);
            lemma_leaf_get(e, i);
            lemma_leaf_get(e1, i);
        } else {
            assert forall|i: int| 0 <= i < e1.len() implies be_num((#[trigger] e1[i]).0) != k by {
                assert(e1[i] == e[i]);
            }
        }
    }
    assert forall|k: int| s <= k implies #[trigger] leaf_get(e2, k) == leaf_get(e, k) by {
        if exists|i: int| 0 <= i < e.len() && be_num((#[trigger] e[i]).0) == k {
            let i = choose|i: int| 0 <= i < e.len() && be_num((#[trigger] e[i]).0) == k;
            if i < p {
                assert(e1[i] == e[i]);
            }
            assert(e2[i - p] == e[i]);
            lemma_leaf_get(e, i);
            lemma_leaf_get(e2, i - p);
        } else {
            assert forall|i: int| 0 <= i < e2.len() implies be_num((#[trigger] e2[i]).0) != k by {
                assert(e2[i] == e[i + p]);
            }
        }
    }
}

/// Putting the entries of two neighbouring leaves together.
pub proof fn lemma_join_leaf(e1: Entries, e2: Entries, lo: int, s: int, hi: int)
    requires
        keys_ok(e1, lo, s),
        keys_ok(e2, s, hi),
        lo < s < hi,
    ensures
        keys_ok(e1 + e2, lo, hi),
        forall|k: int|
            #[trigger] leaf_get(e1 + e2, k) == (if k < s {
                leaf_get(e1, k)
            } else {
                leaf_get(e2, k)
            }),
{
    let e = e1 + e2;
    let n = e1.len() as int;
    let ks = key_nums(e);
    let ks1 = key_nums(e1);
    let ks2 = key_nums(e2);
    assert forall|x: int| 0 <= x < e.len() implies is_key((#[trigger] e[x]).0) && lo <= be_num(
        e[x].0,
    ) < hi && (x < n ==> be_num(e[x].0) < s) && (x >= n ==> s <= be_num(e[x].0)) by {
        if x < n {
            assert(e[x] == e1[x]);
        } else {
            assert(e[x] == e2[x - n]);
        }
    }
    assert forall|x: int, y: int| 0 <= x < y < ks.len() implies #[trigger] ks[x]
        < #[trigger] ks[y] by {
        assert(ks[x] == be_num(e[x].0) && ks[y] == be_num(e[y].0));
        if y < n {
            assert(ks1[x] < ks1[y]);
        } else if x >= n {
            assert(ks2[x - n] < ks2[y - n]);
        }
    }
    assert forall|k: int| #[trigger] leaf_get(e, k) == (if k < s {
        leaf_get(e1, k)
    } else {
        leaf_get(e2, k)
    }) by {
        if exists|i: int| 0 <= i < e.len() && be_num((#[trigger] e[i]).0) == k {
            let i = choose|i: int| 0 <= i < e.len() && be_num((#[trigger] e[i]).0) == k;
            lemma_leaf_get(e, i);
            if i < n {
                assert(e1[i] == e[i]);
                lemma_leaf_get(e1, i);
            } else {
                assert(e2[i - n] == e[i]);
                lemma_leaf_get(e2, i - n);
            }
        } else {
            assert forall|i: int| 0 <= i < e1.len() implies be_num((#[trigger] e1[i]).0) != k by {
                assert(e1[i] == e[i]);
            }
            assert forall|i: int| 0 <= i < e2.len() implies be_num((#[trigger] e2[i]).0) != k by {
                assert(e2[i] == e[i + n]);
            }
        }
    }
}

/// Putting a new key into a leaf.
pub proof fn lemma_leaf_insert(e: Entries, pos: int, key: Seq<u8>, value: Seq<u8>, lo: int, hi: int)
    requires
        keys_ok(e, lo, hi),
        is_key(key),
        lo <= be_num(key) < hi,
        0 <= pos <= e.len(),
        forall|i: int| 0 <= i < pos ==> be_num((#[trigger] e[i]).0) < be_num(key),
        forall|i: int| pos <= i < e.len() ==> be_num(key) < be_num((#[trigger] e[i]).0),
    ensures
        keys_ok(e.insert(pos, (key, value)), lo, hi),
        forall|k: int|
            #[trigger] leaf_get(e.insert(pos, (key, value)), k) == (if k == be_num(key) {
                Some(value)
            } else {
                leaf_get(e, k)
            }),
{
    let e2 = e.insert(pos, (key, value));
    let ks = key_nums(e);
    let ks2 = key_nums(e2);
    assert forall|x: int| 0 <= x < e2.len() implies (x < pos ==> (#[trigger] e2[x]) == e[x]) && (x
        == pos ==> e2[x] == (key, value)) && (x > pos ==> e2[x] == e[x - 1]) by {}
    assert forall|x: int, y: int| 0 <= x < y < ks2.len() implies #[trigger] ks2[x]
        < #[trigger] ks2[y] by {
        assert(ks2[x] == be_num(e2[x].0) && ks2[y] == be_num(e2[y].0));
        let xa = if x < pos {
            x
        } else {
            x - 1
        };
        let ya = if y < pos {
            y
        } else {
            y - 1
        };
        if x == pos {
            assert(e2[y] == e[ya]);
        } else if y == pos {
            assert(e2[x] == e[xa]);
        } else {
            assert(ks[xa] < ks[ya]);
        }
    }
    assert forall|x: int| 0 <= x < e2.len() implies is_key((#[trigger] e2[x]).0) && lo <= be_num(
        e2[x].0,
    ) < hi by {
        if x < pos {
            assert(e2[x] == e[x]);
        } else if x > pos {
            assert(e2[x] == e[x - 1]);
        }
    }
    assert forall|k: int| #[trigger] leaf_get(e2, k) == (if k == be_num(key) {
        Some(value)
    } else {
        leaf_get(e, k)
    }) by {
        if k == be_num(key) {
            lemma_leaf_get(e2, pos);
        } else if exists|i: int| 0 <= i < e.len() && be_num((#[trigger] e[i]).0) == k {
            let i = choose|i: int| 0 <= i < e.len() && be_num((#[trigger] e[i]).0) == k;
            lemma_leaf_get(e, i);
            let i2 = if i < pos {
                i
            } else {
                i + 1
            };
            assert(e2[i2] == e[i]);
            lemma_leaf_get(e2, i2);
        } else {
            assert forall|i: int| 0 <= i < e2.len() implies be_num((#[trigger] e2[i]).0) != k by {
                if i < pos {
                    assert(e2[i] == e[i]);
                } else if i > pos {
                    assert(e2[i] == e[i - 1]);
                }
            }
        }
    }
}

/// Overwriting the payload of a key in a leaf.
pub proof fn lemma_leaf_update(e: Entries, pos: int, value: Seq<u8>, lo: int, hi: int)
    requires
        keys_ok(e, lo, hi),
        0 <= pos < e.len(),
    ensures
        keys_ok(e.update(pos, (e[pos].0, value)), lo, hi),
        forall|k: int|
            #[trigger] leaf_get(e.update(pos, (e[pos].0, value)), k) == (if k == be_num(e[pos].0) {
                Some(value)
            } else {
                leaf_get(e, k)
            }),
{
    let e2 = e.update(pos, (e[pos].0, value));
    let ks = key_nums(e);
    let ks2 = key_nums(e2);
    assert forall|x: int| 0 <= x < e2.len() implies (#[trigger] e2[x]).0 == e[x].0 by {}
    assert(ks =~= ks2);
    assert forall|x: int| 0 <= x < e2.len() implies is_key((#[trigger] e2[x]).0) && lo <= be_num(
        e2[x].0,
    ) < hi by {
        assert(e2[x].0 == e[x].0);
    }
    assert forall|k: int| #[trigger] leaf_get(e2, k) == (if k == be_num(e[pos].0) {
        Some(value)
    } else {
        leaf_get(e, k)
    }) by {
        if k == be_num(e[pos].0) {
            lemma_leaf_get(e2, pos);
        } else if exists|i: int| 0 <= i < e.len() && be_num((#[trigger] e[i]).0) == k {
            let i = choose|i: int| 0 <= i < e.len() && be_num((#[trigger] e[i]).0) == k;
            lemma_leaf_get(e, i);
            assert(e2[i] == e[i]);
            lemma_leaf_get(e2, i);
        } else {
            assert forall|i: int| 0 <= i < e2.len() implies be_num((#[trigger] e2[i]).0) != k by {
                assert(e2[i].0 == e[i].0);
            }
        }
    }
}

/// Taking a key out of a leaf.
pub proof fn lemma_leaf_remove(e: Entries, pos: int, lo: int, hi: int)
    requires
        keys_ok(e, lo, hi),
        0 <= pos < e.len(),
    ensures
        keys_ok(e.remove(pos), lo, hi),
        forall|k: int|
            #[trigger] leaf_get(e.remove(pos), k) == (if k == be_num(e[pos].0) {
                None
            } else {
                leaf_get(e, k)
            }),
        pos == 0 && e.len() > 1 ==> be_num(e[0].0) < be_num(e.remove(pos)[0].0) && keys_ok(
            e.remove(pos),
            be_num(e.remove(pos)[0].0),
            hi,
        ),
{
    let e2 = e.remove(pos);
    let ks = key_nums(e);
    let ks2 = key_nums(e2);
    assert forall|x: int| 0 <= x < e2.len() implies (x < pos ==> (#[trigger] e2[x]) == e[x]) && (x
        >= pos ==> e2[x] == e[x + 1]) by {}
    assert forall|x: int, y: int| 0 <= x < y < ks2.len() implies #[trigger] ks2[x]
        < #[trigger] ks2[y] by {
        let xa = if x < pos {
            x
        } else {
            x + 1
        };
        let ya = if y < pos {
            y
        } else {
            y + 1
        };
        assert(e2[x] == e[xa] && e2[y] == e[ya]);
        assert(ks[xa] < ks[ya]);
    }
    assert forall|x: int| 0 <= x < e2.len() implies is_key((#[trigger] e2[x]).0) && lo <= be_num(
        e2[x].0,
    ) < hi by {
        if x < pos {
            assert(e2[x] == e[x]);
        } else {
            assert(e2[x] == e[x + 1]);
        }
    }
    assert forall|k: int| #[trigger] leaf_get(e2, k) == (if k == be_num(e[pos].0) {
        None
    } else {
        leaf_get(e, k)
    }) by {
        if k == be_num(e[pos].0) {
            assert forall|i: int| 0 <= i < e2.len() implies be_num((#[trigger] e2[i]).0) != k by {
                if i < pos {
                    assert(e2[i] == e[i]);
                    assert(ks[i] < ks[pos]);
                } else {
                    assert(e2[i] == e[i + 1]);
                    assert(ks[pos] < ks[i + 1]);
                }
            }
        } else if exists|i: int| 0 <= i < e.len() && be_num((#[trigger] e[i]).0) == k {
            let i = choose|i: int| 0 <= i < e.len() && be_num((#[trigger] e[i]).0) == k;
            lemma_leaf_get(e, i);
            let i2 = if i < pos {
                i
            } else {
                i - 1
            };
            assert(e2[i2] == e[i]);
            lemma_leaf_get(e2, i2);
        } else {
            assert forall|i: int| 0 <= i < e2.len() implies be_num((#[trigger] e2[i]).0) != k by {
                if i < pos {
                    assert(e2[i] == e[i]);
                } else {
                    assert(e2[i] == e[i + 1]);
                }
            }
        }
    }
    if pos == 0 && e.len() > 1 {
        assert(e2[0] == e[1]);
        assert(ks[0] < ks[1]);
        assert forall|x: int| 0 <= x < e2.len() implies be_num(e2[0].0) <= be_num(
            (#[trigger] e2[x]).0,
        ) by {
            if x > 0 {
                assert(ks2[0] < ks2[x]);
            }
        }
    }
}

} // verus!
