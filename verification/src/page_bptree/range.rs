//! Rows in key order.
use vstd::prelude::*;

use super::chain::{hi_of, lemma_leaf_for_limits, lemma_limits, lo_of, next_num, MAX_SCAN_LEAF_HOPS};
use super::node_page::{decode_leaf_value_ref, entry_key_at, entry_value_at, entry_value_bounds,
    key_nums, lemma_canonical_bounds, lemma_canonical_table, lower_bound_in_leaf, node_of,
    page_header, row_of, LeafRow, LeafValueMeta, LeafValueRef, PAGE_TYPE_LEAF};
use super::provider::AsyncPageProvider;
use super::tree::{ids_below, lemma_leaf_for, tree_at, PageBPlusTree};
use super::tree_model::{has_id, keys_ok, leaf_get, lemma_ids_owned, lemma_leaf_get, lookup, Tree};
use crate::common::{bytes_view, page_bytes, PageId};
use crate::key_order::{be_num, bytes_lt, is_key, key_top, lemma_key_range, lemma_lex_is_num_order,
    lemma_lex_total, lemma_lex_transitive, lemma_route_num, lex_le, lex_lt, route_num};
use crate::layout::copy_bytes;

verus! {

/// A list of rows as keys and contents.
pub open spec fn rows_view(v: Seq<(Vec<u8>, LeafValueRef)>) -> Seq<(Seq<u8>, LeafRow)> {
    Seq::new(v.len(), |i: int| (v[i].0@, v[i].1.row()))
}

/// `k` lies between `start` and `end`, both taken in.
pub open spec fn in_range(k: Seq<u8>, start: Seq<u8>, end: Seq<u8>) -> bool {
    lex_le(start, k) && lex_le(k, end)
}

/// `out` lists the rows between `start` and `end`: each once, in ascending
/// key order.
pub open spec fn lists_range(
    rows: Map<Seq<u8>, LeafRow>,
    start: Seq<u8>,
    end: Seq<u8>,
    out: Seq<(Seq<u8>, LeafRow)>,
) -> bool {
    &&& forall|i: int, j: int|
        0 <= i < j < out.len() ==> lex_lt(#[trigger] out[i].0, #[trigger] out[j].0)
    &&& forall|i: int|
        0 <= i < out.len() ==> rows.contains_key((#[trigger] out[i]).0) && rows[out[i].0]
            == out[i].1 && in_range(out[i].0, start, end)
    &&& forall|k: Seq<u8>|
        rows.contains_key(k) && in_range(k, start, end) ==> #[trigger] listed(out, k)
}

/// Key `k` is in the list.
pub open spec fn listed(out: Seq<(Seq<u8>, LeafRow)>, k: Seq<u8>) -> bool {
    exists|i: int| 0 <= i < out.len() && (#[trigger] out[i]).0 == k
}

/// The rows between `start` and `end` with numbers below `top` are listed.
spec fn lists_below(
    t: Tree,
    start: Seq<u8>,
    end: Seq<u8>,
    out: Seq<(Seq<u8>, LeafRow)>,
    top: int,
) -> bool {
    &&& forall|i: int, j: int|
        0 <= i < j < out.len() ==> be_num(#[trigger] out[i].0) < be_num(#[trigger] out[j].0)
    &&& forall|i: int|
        0 <= i < out.len() ==> is_key((#[trigger] out[i]).0) && lookup(t, be_num(out[i].0)) is Some
            && row_of(lookup(t, be_num(out[i].0))->Some_0) == out[i].1 && in_range(
            out[i].0,
            start,
            end,
        ) && be_num(out[i].0) < top
    &&& forall|k: Seq<u8>|
        is_key(k) && be_num(k) < top && lookup(t, be_num(k)) is Some && in_range(k, start, end)
            ==> #[trigger] listed(out, k)
}

impl<P: AsyncPageProvider> PageBPlusTree<P> {
    /// The rows from `start` to `end`, both taken in, in ascending key order.
    pub fn range(&self, start: &[u8], end: &[u8]) -> (r: Vec<(Vec<u8>, LeafValueRef)>)
        requires
            self.wf(),
        ensures
            self.depth() < MAX_SCAN_LEAF_HOPS ==> lists_range(
                self.rows(),
                start@,
                end@,
                rows_view(r@),
            ),
            self.depth() >= MAX_SCAN_LEAF_HOPS ==> r@.len() == 0,
    {
        let ghost m = self.provider.pages();
        let ghost n = self.provider.next_id();
        let ghost own = ids_below(n);
        let ghost t = self.tree();
        let ghost d = self.depth();
        let ghost top = key_top();
        let mut out: Vec<(Vec<u8>, LeafValueRef)> = Vec::new();
        let mut leaf_id: PageId = match self.find_leaf_for_read(start) {
            Some(id) => id,
            None => {
                return out;
            },
        };
        let mut first: bool = true;
        proof {
            let c = route_num(start@);
            lemma_route_num(start@, Seq::new(crate::common::KEY_SIZE as nat, |i: int| 0u8));
            lemma_leaf_for(t, m, own, 0, top, 0, d, c);
            lemma_leaf_for_limits(t, m, own, 0, top, 0, d, c);
            let lo = lo_of(t, leaf_id, 0, top);
            assert forall|k: Seq<u8>|
                is_key(k) && be_num(k) < lo && in_range(k, start@, end@) implies #[trigger] listed(
                rows_view(out@),
                k,
            ) by {
                lemma_key_range(k);
                lemma_route_num(start@, k);
                lemma_lex_total(start@, k);
                assert(be_num(k) < c);
                assert(!lex_lt(start@, k));
            }
        }
        loop
            invariant
                self.wf(),
                m == self.provider.pages(),
                n == self.provider.next_id(),
                own == ids_below(n),
                t == self.tree(),
                d == self.depth(),
                top == key_top(),
                tree_at(m, self.provider.root(), n, t, d),
                self.depth() < MAX_SCAN_LEAF_HOPS,
                has_id(t, leaf_id),
                node_of(m[leaf_id]).page_type == PAGE_TYPE_LEAF,
                lists_below(t, start@, end@, rows_view(out@), lo_of(t, leaf_id, 0, top)),
                route_num(start@) < hi_of(t, leaf_id, 0, top),
                !first ==> route_num(start@) < lo_of(t, leaf_id, 0, top),
            decreases top - lo_of(t, leaf_id, 0, top),
        {
            let ghost lo = lo_of(t, leaf_id, 0, top);
            let ghost hi = hi_of(t, leaf_id, 0, top);
            proof {
                lemma_limits(t, m, own, 0, top, 0, d, leaf_id);
                lemma_ids_owned(t, m, own, 0, top, 0, d, leaf_id);
                lemma_canonical_table(m[leaf_id]);
            }
            let page = match self.provider.read_page(leaf_id) {
                Some(p) => p,
                None => {
                    return out;
                },
            };
            let bytes = page_bytes(&page);
            let header = page_header(bytes);
            let ghost e = node_of(m[leaf_id]).entries;
            let key_count: usize = header.key_count as usize;
            let mut idx: usize = if first {
                lower_bound_in_leaf(bytes, start)
            } else {
                0
            };
            proof {
                lemma_scan_start(t, start@, end@, rows_view(out@), lo, hi, e, idx as int, first);
            }
            first = false;
            while idx < key_count
                invariant
                    self.wf(),
                    m == self.provider.pages(),
                    t == self.tree(),
                    bytes@ == m[leaf_id],
                    bytes_view(page) == bytes@,
                    super::node_page::canonical(bytes@),
                    super::node_page::table_fits(bytes@),
                    bytes@[0] == PAGE_TYPE_LEAF,
                    e == node_of(bytes@).entries,
                    key_count == e.len(),
                    key_count == super::node_page::count_of(bytes@),
                    idx <= key_count,
                    keys_ok(e, lo, hi),
                    0 <= lo < hi <= key_top(),
                    forall|k: int|
                        lo <= k < hi ==> #[trigger] lookup(t, k) == leaf_get(e, k),
                    forall|i: int|
                        idx <= i < key_count ==> lex_le(start@, #[trigger] e[i].0),
                    lists_below(
                        t,
                        start@,
                        end@,
                        rows_view(out@),
                        if idx < key_count {
                            be_num(e[idx as int].0)
                        } else {
                            hi
                        },
                    ),
                    self.depth() < MAX_SCAN_LEAF_HOPS,
                decreases key_count - idx,
            {
                proof {
                    lemma_canonical_bounds(bytes@, idx as int);
                }
                let key = entry_key_at(bytes, idx).unwrap();
                assert(key@ == e[idx as int].0);
                if bytes_lt(end, key) {
                    proof {
                        lemma_scan_done(t, start@, end@, rows_view(out@), key@);
                    }
                    return out;
                }
                let bounds = entry_value_bounds(bytes, idx).unwrap();
                let row = decode_leaf_value_ref(&page, bounds.0).unwrap();
                let ghost before = rows_view(out@);
                let ghost item = (key@, row.row());
                out.push((copy_bytes(key), row));
                proof {
                    lemma_leaf_get(e, idx as int);
                    assert(row.row() == row_of(e[idx as int].1));
                    assert(rows_view(out@) =~= before.push(item));
                    lemma_scan_push(
                        t,
                        start@,
                        end@,
                        before,
                        item,
                        e,
                        idx as int,
                        lo,
                        hi,
                    );
                }
                idx += 1;
            }
            match header.next_leaf {
                Some(next) => {
                    proof {
                        assert(next_num(m, leaf_id) == next);
                        assert(next != 0) by {
                            assert(node_of(m[leaf_id]).next_leaf == super::node_page::link_of(
                                crate::layout::u64_at(m[leaf_id], 12),
                            ));
                        }
                        assert(lo_of(t, next, 0, top) == hi);
                        lemma_limits(t, m, own, 0, top, 0, d, next);
                    }
                    leaf_id = next;
                },
                None => {
                    proof {
                        if has_id(t, 0) {
                            lemma_ids_owned(t, m, own, 0, top, 0, d, 0);
                        }
                        assert(hi == top);
                        lemma_scan_all(t, start@, end@, rows_view(out@));
                    }
                    return out;
                },
            }
        }
    }

    /// Visits the rows from `start` to `end`, both taken in, in ascending key order,
    /// until `f` answers `false`. Returns the rows that were visited.
    pub fn range_visit<F: Fn(&Vec<u8>, &LeafValueRef) -> bool>(
        &self,
        start: &[u8],
        end: &[u8],
        f: F,
    ) -> (r: Vec<(Vec<u8>, LeafValueRef)>)
        requires
            self.wf(),
            forall|k: &Vec<u8>, row: &LeafValueRef| #[trigger] call_requires(f, (k, row)),
        ensures
            self.depth() < MAX_SCAN_LEAF_HOPS ==> exists|all: Seq<(Vec<u8>, LeafValueRef)>|
                lists_range(self.rows(), start@, end@, rows_view(all)) && #[trigger] visited(
                    f,
                    all,
                    r@,
                ),
            self.depth() >= MAX_SCAN_LEAF_HOPS ==> r@.len() == 0,
    {
        let mut rows = self.range(start, end);
        let ghost all = rows@;
        let n: usize = rows.len();
        let mut i: usize = 0;
        while i < n
            invariant
                n == rows@.len(),
                i <= n,
                rows@ == all,
                self.depth() < MAX_SCAN_LEAF_HOPS ==> lists_range(
                    self.rows(),
                    start@,
                    end@,
                    rows_view(all),
                ),
                self.depth() >= MAX_SCAN_LEAF_HOPS ==> all.len() == 0,
                forall|k: &Vec<u8>, row: &LeafValueRef| #[trigger] call_requires(f, (k, row)),
                forall|j: int|
                    0 <= j < i ==> call_ensures(f, (&(#[trigger] all[j]).0, &all[j].1), true),
            decreases n - i,
        {
            let go_on: bool = f(&rows[i].0, &rows[i].1);
            if !go_on {
                rows.truncate(i + 1);
                assert(rows@ =~= all.take(i + 1));
                assert(visited(f, all, rows@));
                return rows;
            }
            i += 1;
        }
        assert(rows@ =~= all.take(n as int));
        assert(visited(f, all, rows@));
        rows
    }
}

/// `seen` is the part of `all` that is visited until `f` answers `false`.
pub open spec fn visited<F: Fn(&Vec<u8>, &LeafValueRef) -> bool>(
    f: F,
    all: Seq<(Vec<u8>, LeafValueRef)>,
    seen: Seq<(Vec<u8>, LeafValueRef)>,
) -> bool {
    let n = seen.len() as int;
    &&& n <= all.len()
    &&& seen == all.take(n)
    &&& forall|i: int| 0 <= i < n - 1 ==> call_ensures(f, (&(#[trigger] all[i]).0, &all[i].1), true)
    &&& n < all.len() ==> n > 0 && call_ensures(f, (&all[n - 1].0, &all[n - 1].1), false)
}

/// The scan at the beginning of a leaf.
proof fn lemma_scan_start(
    t: Tree,
    start: Seq<u8>,
    end: Seq<u8>,
    out: Seq<(Seq<u8>, LeafRow)>,
    lo: int,
    hi: int,
    e: super::tree_model::Entries,
    idx: int,
    first: bool,
)
    requires
        lists_below(t, start, end, out, lo),
        0 <= lo < hi <= key_top(),
        keys_ok(e, lo, hi),
        forall|k: int| lo <= k < hi ==> #[trigger] lookup(t, k) == leaf_get(e, k),
        0 <= idx <= e.len(),
        first ==> forall|i: int| 0 <= i < idx ==> lex_lt(#[trigger] e[i].0, start),
        first ==> forall|i: int| idx <= i < e.len() ==> !lex_lt(#[trigger] e[i].0, start),
        !first ==> idx == 0 && route_num(start) < lo,
    ensures
        forall|i: int| idx <= i < e.len() ==> lex_le(start, #[trigger] e[i].0),
        lists_below(
            t,
            start,
            end,
            out,
            if idx < e.len() {
                be_num(e[idx].0)
            } else {
                hi
            },
        ),
{
    let top = if idx < e.len() {
        be_num(e[idx].0)
    } else {
        hi
    };
    let ks = key_nums(e);
    assert forall|i: int| idx <= i < e.len() implies lex_le(start, #[trigger] e[i].0) by {
        if !first {
            lemma_route_num(start, e[i].0);
            crate::key_order::lemma_lex_asymmetric(start, e[i].0);
        }
    }
    assert forall|k: Seq<u8>|
        is_key(k) && be_num(k) < top && lookup(t, be_num(k)) is Some && in_range(
            k,
            start,
            end,
        ) implies #[trigger] listed(out, k) by {
        let kn = be_num(k);
        lemma_key_range(k);
        if lo <= kn {
            assert(leaf_get(e, kn) is Some);
            let i = choose|i: int| 0 <= i < e.len() && be_num((#[trigger] e[i]).0) == kn;
            assert(ks[i] == kn);
            if idx <= i && idx < e.len() {
                if idx < i {
                    assert(ks[idx] < ks[i]);
                }
            }
            assert(i < idx);
            lemma_lex_is_num_order(e[i].0, k);
            assert(lex_lt(k, start));
        }
    }
}

/// One more row of the leaf is listed.
proof fn lemma_scan_push(
    t: Tree,
    start: Seq<u8>,
    end: Seq<u8>,
    out: Seq<(Seq<u8>, LeafRow)>,
    item: (Seq<u8>, LeafRow),
    e: super::tree_model::Entries,
    idx: int,
    lo: int,
    hi: int,
)
    requires
        0 <= idx < e.len(),
        0 <= lo < hi <= key_top(),
        keys_ok(e, lo, hi),
        forall|k: int| lo <= k < hi ==> #[trigger] lookup(t, k) == leaf_get(e, k),
        lists_below(t, start, end, out, be_num(e[idx].0)),
        item.0 == e[idx].0,
        item.1 == row_of(e[idx].1),
        lex_le(start, item.0),
        lex_le(item.0, end),
    ensures
        lists_below(
            t,
            start,
            end,
            out.push(item),
            if idx + 1 < e.len() {
                be_num(e[idx + 1].0)
            } else {
                hi
            },
        ),
{
    let out2 = out.push(item);
    let top = if idx + 1 < e.len() {
        be_num(e[idx + 1].0)
    } else {
        hi
    };
    let ks = key_nums(e);
    lemma_leaf_get(e, idx);
    let kn0 = be_num(e[idx].0);
    assert(lookup(t, kn0) == leaf_get(e, kn0));
    assert(ks[idx] == kn0);
    if idx + 1 < e.len() {
        assert(ks[idx] < ks[idx + 1]);
    }
    assert forall|i: int| 0 <= i < out2.len() implies is_key((#[trigger] out2[i]).0) && lookup(
        t,
        be_num(out2[i].0),
    ) is Some && row_of(lookup(t, be_num(out2[i].0))->Some_0) == out2[i].1 && in_range(
        out2[i].0,
        start,
        end,
    ) && be_num(out2[i].0) < top by {
        if i < out.len() {
            assert(out2[i] == out[i]);
        }
    }
    assert forall|i: int, j: int| 0 <= i < j < out2.len() implies be_num(#[trigger] out2[i].0)
        < be_num(#[trigger] out2[j].0) by {
        assert(out2[i] == out[i]);
        if j < out.len() {
            assert(out2[j] == out[j]);
        }
    }
    assert forall|k: Seq<u8>|
        is_key(k) && be_num(k) < top && lookup(t, be_num(k)) is Some && in_range(
            k,
            start,
            end,
        ) implies #[trigger] listed(out2, k) by {
        let kn = be_num(k);
        lemma_key_range(k);
        if kn < kn0 {
            assert(listed(out, k));
            let i = choose|i: int| 0 <= i < out.len() && (#[trigger] out[i]).0 == k;
            assert(out2[i].0 == k);
        } else {
            assert(leaf_get(e, kn) is Some);
            let i = choose|i: int| 0 <= i < e.len() && be_num((#[trigger] e[i]).0) == kn;
            assert(ks[i] == kn);
            if i < idx {
                assert(ks[i] < ks[idx]);
            }
            if i > idx && i > idx + 1 {
                assert(ks[idx + 1] < ks[i]);
            }
            assert(i == idx);
            lemma_lex_is_num_order(e[i].0, k);
            assert(out2[out.len() as int].0 == k);
        }
    }
}

/// The list is complete once a key above `end` is reached.
proof fn lemma_scan_done(
    t: Tree,
    start: Seq<u8>,
    end: Seq<u8>,
    out: Seq<(Seq<u8>, LeafRow)>,
    key: Seq<u8>,
)
    requires
        is_key(key),
        lists_below(t, start, end, out, be_num(key)),
        lex_lt(end, key),
    ensures
        lists_range(super::tree::rows_of(t), start, end, out),
{
    let rows = super::tree::rows_of(t);
    lemma_lists_order(t, start, end, out, be_num(key));
    assert forall|k: Seq<u8>|
        rows.contains_key(k) && in_range(k, start, end) implies #[trigger] listed(out, k) by {
        lemma_lex_is_num_order(k, key);
        lemma_lex_is_num_order(key, k);
        if be_num(k) >= be_num(key) {
            if k != key {
                lemma_lex_transitive(end, key, k);
            }
        }
    }
}

/// The list is complete once every leaf was visited.
proof fn lemma_scan_all(t: Tree, start: Seq<u8>, end: Seq<u8>, out: Seq<(Seq<u8>, LeafRow)>)
    requires
        lists_below(t, start, end, out, key_top()),
    ensures
        lists_range(super::tree::rows_of(t), start, end, out),
{
    let rows = super::tree::rows_of(t);
    lemma_lists_order(t, start, end, out, key_top());
    assert forall|k: Seq<u8>|
        rows.contains_key(k) && in_range(k, start, end) implies #[trigger] listed(out, k) by {
        lemma_key_range(k);
    }
}

proof fn lemma_lists_order(
    t: Tree,
    start: Seq<u8>,
    end: Seq<u8>,
    out: Seq<(Seq<u8>, LeafRow)>,
    top: int,
)
    requires
        lists_below(t, start, end, out, top),
    ensures
        forall|i: int, j: int|
            0 <= i < j < out.len() ==> lex_lt(#[trigger] out[i].0, #[trigger] out[j].0),
{
    assert forall|i: int, j: int| 0 <= i < j < out.len() implies lex_lt(
        #[trigger] out[i].0,
        #[trigger] out[j].0,
    ) by {
        assert(is_key(out[i].0) && is_key(out[j].0));
        lemma_lex_is_num_order(out[i].0, out[j].0);
        assert(be_num(out[i].0) < be_num(out[j].0));
    }
}

/// A list of version fields as keys and fields.
pub open spec fn metas_view(v: Seq<(Vec<u8>, LeafValueMeta)>) -> Seq<(Seq<u8>, LeafValueMeta)> {
    Seq::new(v.len(), |i: int| (v[i].0@, v[i].1))
}

/// `seen` is the part of `all` that is visited until `f` answers `false`.
pub open spec fn visited_meta<F: Fn(&Vec<u8>, &LeafValueMeta) -> bool>(
    f: F,
    all: Seq<(Vec<u8>, LeafValueMeta)>,
    seen: Seq<(Vec<u8>, LeafValueMeta)>,
) -> bool {
    let n = seen.len() as int;
    &&& n <= all.len()
    &&& seen == all.take(n)
    &&& forall|i: int| 0 <= i < n - 1 ==> call_ensures(f, (&(#[trigger] all[i]).0, &all[i].1), true)
    &&& n < all.len() ==> n > 0 && call_ensures(f, (&all[n - 1].0, &all[n - 1].1), false)
}

/// The keys and version fields of a list of rows.
pub open spec fn metas_of(out: Seq<(Seq<u8>, LeafRow)>) -> Seq<(Seq<u8>, LeafValueMeta)> {
    Seq::new(out.len(), |i: int| (out[i].0, out[i].1.meta))
}

impl<P: AsyncPageProvider> PageBPlusTree<P> {
    /// The keys and version fields from `start` to `end`, both taken in.
    pub fn range_meta(&self, start: &[u8], end: &[u8]) -> (r: Vec<(Vec<u8>, LeafValueMeta)>)
        requires
            self.wf(),
        ensures
            self.depth() < MAX_SCAN_LEAF_HOPS ==> exists|out: Seq<(Seq<u8>, LeafRow)>|
                #[trigger] lists_range(self.rows(), start@, end@, out) && metas_view(r@)
                    == metas_of(out),
            self.depth() >= MAX_SCAN_LEAF_HOPS ==> r@.len() == 0,
    {
        let rows = self.range(start, end);
        let mut out: Vec<(Vec<u8>, LeafValueMeta)> = Vec::new();
        let n: usize = rows.len();
        let mut i: usize = 0;
        while i < n
            invariant
                n == rows@.len(),
                i <= n,
                metas_view(out@) =~= metas_of(rows_view(rows@)).take(i as int),
            decreases n - i,
        {
            let ghost before = out@;
            out.push((copy_bytes(rows[i].0.as_slice()), rows[i].1.meta));
            assert(metas_view(out@) =~= metas_view(before).push(
                metas_of(rows_view(rows@))[i as int],
            ));
            i += 1;
        }
        assert(metas_view(out@) =~= metas_of(rows_view(rows@)));
        out
    }

    /// As `range_visit`, with the version fields only.
    pub fn range_visit_meta<F: Fn(&Vec<u8>, &LeafValueMeta) -> bool>(
        &self,
        start: &[u8],
        end: &[u8],
        f: F,
    ) -> (r: Vec<(Vec<u8>, LeafValueMeta)>)
        requires
            self.wf(),
            forall|k: &Vec<u8>, meta: &LeafValueMeta| #[trigger] call_requires(f, (k, meta)),
        ensures
            self.depth() < MAX_SCAN_LEAF_HOPS ==> exists|
                out: Seq<(Seq<u8>, LeafRow)>,
                all: Seq<(Vec<u8>, LeafValueMeta)>,
            |
                #[trigger] lists_range(self.rows(), start@, end@, out) && metas_view(all)
                    == metas_of(out) && #[trigger] visited_meta(f, all, r@),
            self.depth() >= MAX_SCAN_LEAF_HOPS ==> r@.len() == 0,
    {
        let mut rows = self.range_meta(start, end);
        let ghost all = rows@;
        let n: usize = rows.len();
        let mut i: usize = 0;
        while i < n
            invariant
                n == rows@.len(),
                i <= n,
                rows@ == all,
                self.depth() < MAX_SCAN_LEAF_HOPS ==> exists|out: Seq<(Seq<u8>, LeafRow)>|
                    #[trigger] lists_range(self.rows(), start@, end@, out) && metas_view(all)
                        == metas_of(out),
                self.depth() >= MAX_SCAN_LEAF_HOPS ==> all.len() == 0,
                forall|k: &Vec<u8>, meta: &LeafValueMeta| #[trigger] call_requires(f, (k, meta)),
                forall|j: int|
                    0 <= j < i ==> call_ensures(f, (&(#[trigger] all[j]).0, &all[j].1), true),
            decreases n - i,
        {
            let go_on: bool = f(&rows[i].0, &rows[i].1);
            if !go_on {
                rows.truncate(i + 1);
                assert(rows@ =~= all.take(i + 1));
                assert(visited_meta(f, all, rows@));
                return rows;
            }
            i += 1;
        }
        assert(rows@ =~= all.take(n as int));
        assert(visited_meta(f, all, rows@));
        rows
    }

    /// The first keys, at most `limit`, of the leaf that `key` belongs to.
    pub fn debug_leaf_keys(&self, key: &[u8], limit: usize) -> (r: Vec<Vec<u8>>)
        requires
            self.wf(),
        ensures
            self.depth() >= MAX_SCAN_LEAF_HOPS ==> r@.len() == 0,
            self.depth() < MAX_SCAN_LEAF_HOPS ==> ({
                let e = self.leaf_of(key@).entries;
                &&& r@.len() == (if e.len() < limit {
                    e.len() as int
                } else {
                    limit as int
                })
                &&& forall|i: int| 0 <= i < r@.len() ==> (#[trigger] r@[i])@ == e[i].0
            }),
    {
        let entries = self.debug_leaf_entries(key, limit);
        let mut out: Vec<Vec<u8>> = Vec::new();
        let n: usize = entries.len();
        let mut i: usize = 0;
        while i < n
            invariant
                n == entries@.len(),
                i <= n,
                out@.len() == i,
                forall|j: int| 0 <= j < i ==> (#[trigger] out@[j])@ == entries@[j].0@,
            decreases n - i,
        {
            out.push(copy_bytes(entries[i].0.as_slice()));
            i += 1;
        }
        out
    }

    /// The first keys with their payloads, at most `limit`, of the leaf that
    /// `key` belongs to.
    pub fn debug_leaf_entries(&self, key: &[u8], limit: usize) -> (r: Vec<(Vec<u8>, Vec<u8>)>)
        requires
            self.wf(),
        ensures
            self.depth() >= MAX_SCAN_LEAF_HOPS ==> r@.len() == 0,
            self.depth() < MAX_SCAN_LEAF_HOPS ==> ({
                let e = self.leaf_of(key@).entries;
                &&& r@.len() == (if e.len() < limit {
                    e.len() as int
                } else {
                    limit as int
                })
                &&& forall|i: int|
                    0 <= i < r@.len() ==> (#[trigger] r@[i]).0@ == e[i].0 && r@[i].1@ == e[i].1
            }),
    {
        let ghost m = self.provider.pages();
        let mut out: Vec<(Vec<u8>, Vec<u8>)> = Vec::new();
        let leaf_id: PageId = match self.find_leaf_for_read(key) {
            Some(id) => id,
            None => {
                return out;
            },
        };
        let ghost e = self.leaf_of(key@).entries;
        proof {
            let c = route_num(key@);
            lemma_route_num(key@, Seq::new(crate::common::KEY_SIZE as nat, |i: int| 0u8));
            lemma_leaf_for(
                self.tree(),
                m,
                ids_below(self.provider.next_id()),
                0,
                key_top(),
                0,
                self.depth(),
                c,
            );
            lemma_canonical_table(m[leaf_id]);
        }
        let page = match self.provider.read_page(leaf_id) {
            Some(p) => p,
            None => {
                return out;
            },
        };
        let bytes = page_bytes(&page);
        let header = page_header(bytes);
        let count: usize = header.key_count as usize;
        let n: usize = if count < limit {
            count
        } else {
            limit
        };
        let mut idx: usize = 0;
        while idx < n
            invariant
                super::node_page::canonical(bytes@),
                super::node_page::table_fits(bytes@),
                e == node_of(bytes@).entries,
                n <= e.len(),
                e.len() == super::node_page::count_of(bytes@),
                idx <= n,
                out@.len() == idx,
                forall|i: int|
                    0 <= i < idx ==> (#[trigger] out@[i]).0@ == e[i].0 && out@[i].1@ == e[i].1,
            decreases n - idx,
        {
            proof {
                lemma_canonical_bounds(bytes@, idx as int);
            }
            let k = entry_key_at(bytes, idx).unwrap();
            let v = entry_value_at(bytes, idx).unwrap();
            out.push((copy_bytes(k), copy_bytes(v)));
            idx += 1;
        }
        out
    }
}

/// What a range gives: every row whose key is neither below `start` nor above `end`, once,
/// with the smaller key first, and nothing else.
pub proof fn law_range_rows(
    rows: Map<Seq<u8>, LeafRow>,
    start: Seq<u8>,
    end: Seq<u8>,
    out: Seq<(Seq<u8>, LeafRow)>,
    k: Seq<u8>,
)
    requires
        lists_range(rows, start, end, out),
    ensures
        rows.contains_key(k) && !lex_lt(k, start) && !lex_lt(end, k) <==> exists|i: int|
            0 <= i < out.len() && (#[trigger] out[i]).0 == k,
        forall|i: int| 0 <= i < out.len() && (#[trigger] out[i]).0 == k ==> out[i].1 == rows[k],
        forall|i: int, j: int|
            0 <= i < j < out.len() ==> lex_lt((#[trigger] out[i]).0, (#[trigger] out[j]).0),
{
    if rows.contains_key(k) && !lex_lt(k, start) && !lex_lt(end, k) {
        assert(in_range(k, start, end));
        assert(listed(out, k));
    }
}

} // verus!
