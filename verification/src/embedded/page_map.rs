//! Pages by id, and lists of them.
use vstd::prelude::*;

use crate::common::{bytes_view, Page, PageId};
use crate::key_order::lemma_increasing;
use crate::txn_page_provider::page_views;
use std::collections::BTreeMap;
use vstd::std_specs::btree::{increasing_seq, spec_btree_map_iter};
use vstd::std_specs::iter::IteratorSpec;

verus! {

broadcast use vstd::std_specs::btree::group_btree_axioms;

/// A page of the map.
pub fn find_page(m: &BTreeMap<u64, Page>, page_id: PageId) -> (r: Option<Page>)
    ensures
        match r {
            Some(p) => m@.contains_key(page_id) && page_views(m@).contains_key(page_id)
                && bytes_view(p) == page_views(m@)[page_id],
            None => !m@.contains_key(page_id) && !page_views(m@).contains_key(page_id),
        },
{
    match m.get(&page_id) {
        Some(p) => Some(p.clone()),
        None => None,
    }
}

/// Puts a page into the map.
pub fn store_page(m: &mut BTreeMap<u64, Page>, page_id: PageId, page: Page)
    ensures
        page_views(final(m)@) == page_views(old(m)@).insert(page_id, bytes_view(page)),
        final(m)@.dom() == old(m)@.dom().insert(page_id),
{
    let ghost bytes = bytes_view(page);
    m.insert(page_id, page);
    assert(page_views(m@) =~= page_views(old(m)@).insert(page_id, bytes));
    assert(m@.dom() =~= old(m)@.dom().insert(page_id));
}

/// Puts all pages of `from` into the map.
pub fn merge_pages(into: &mut BTreeMap<u64, Page>, from: &BTreeMap<u64, Page>)
    ensures
        page_views(final(into)@) == page_views(old(into)@).union_prefer_right(page_views(from@)),
{
    let ghost a = page_views(into@);
    let ghost b = page_views(from@);
    let ghost pairs = spec_btree_map_iter(from).remaining();
    let it0 = from.iter();
    let ghost mut done: Set<u64> = Set::empty();
    assert(a.union_prefer_right(b.restrict(done)) =~= a);
    for (id, p) in it: it0
        invariant
            it.seq() == pairs,
            a == page_views(old(into)@),
            b == page_views(from@),
            forall|i: int|
                0 <= i < pairs.len() ==> from@.contains_key(*(#[trigger] pairs[i]).0)
                    && from@[*pairs[i].0] == *pairs[i].1,
            page_views(into@) == a.union_prefer_right(b.restrict(done)),
            forall|x: u64| #[trigger]
                done.contains(x) <==> exists|j: int|
                    0 <= j < it.index() && *(#[trigger] pairs[j]).0 == x,
    {
        let ghost before = page_views(into@);
        let ghost n = it.index() as int;
        assert(*pairs[n].0 == *id);
        assert(from@[*id] == *p);
        store_page(into, *id, p.clone());
        proof {
            let d2 = done.insert(*id);
            assert(page_views(into@) =~= a.union_prefer_right(b.restrict(d2)));
            done = d2;
        }
    }
    proof {
        assert forall|x: u64| b.contains_key(x) implies done.contains(x) by {
            assert(from@.contains_key(x));
            assert(pairs.contains((&x, &from@[x])));
            let j = choose|j: int| 0 <= j < pairs.len() && pairs[j] == (&x, &from@[x]);
            assert(*pairs[j].0 == x);
        }
        assert(b.restrict(done) =~= b);
    }
}

/// `out` lists the pages of `m`, in ascending order of id.
pub open spec fn lists_pages(out: Seq<(PageId, Page)>, m: Map<u64, Seq<u8>>) -> bool {
    &&& forall|i: int, j: int| 0 <= i < j < out.len() ==> (#[trigger] out[i]).0 < (#[trigger] out[j]).0
    &&& forall|i: int|
        0 <= i < out.len() ==> m.contains_key((#[trigger] out[i]).0) && m[out[i].0] == bytes_view(
            out[i].1,
        )
    &&& forall|id: u64| #[trigger]
        m.contains_key(id) ==> exists|i: int| 0 <= i < out.len() && (#[trigger] out[i]).0 == id
    &&& out.len() == m.len()
}

/// The pages of a map as a list.
pub fn list_pages(m: &BTreeMap<u64, Page>) -> (r: Vec<(PageId, Page)>)
    ensures
        lists_pages(r@, page_views(m@)),
{
    let mut out: Vec<(PageId, Page)> = Vec::new();
    let ghost v = page_views(m@);
    let ghost pairs = spec_btree_map_iter(m).remaining();
    let it0 = m.iter();
    proof {
        let ks = pairs.map_values(|kv: (&u64, &Page)| *kv.0);
        assert(increasing_seq(ks));
        lemma_increasing(ks);
        assert forall|i: int, j: int| 0 <= i < j < pairs.len() implies *(#[trigger] pairs[i]).0 < *(
        #[trigger] pairs[j]).0 by {
            assert(ks[i] == *pairs[i].0 && ks[j] == *pairs[j].0);
        }
    }
    for (id, p) in it: it0
        invariant
            it.seq() == pairs,
            v == page_views(m@),
            out@.len() == it.index(),
            forall|i: int|
                0 <= i < pairs.len() ==> m@.contains_key(*(#[trigger] pairs[i]).0)
                    && m@[*pairs[i].0] == *pairs[i].1,
            forall|j: int|
                0 <= j < out@.len() ==> (#[trigger] out@[j]).0 == *pairs[j].0 && bytes_view(
                    out@[j].1,
                ) == v[*pairs[j].0],
    {
        assert(*pairs[it.index() as int].0 == *id);
        out.push((*id, p.clone()));
    }
    proof {
        assert forall|i: int| 0 <= i < out@.len() implies v.contains_key((#[trigger] out@[i]).0) by {
            assert(m@.contains_key(*pairs[i].0));
        }
        assert forall|id: u64| #[trigger] v.contains_key(id) implies exists|i: int|
            0 <= i < out@.len() && (#[trigger] out@[i]).0 == id by {
            assert(m@.contains_key(id));
            assert(pairs.contains((&id, &m@[id])));
            let j = choose|j: int| 0 <= j < pairs.len() && pairs[j] == (&id, &m@[id]);
            assert(out@[j].0 == id);
        }
        assert(v.dom() =~= m@.dom());
    }
    out
}

/// The list of pages has each page once, with its bytes, the smaller id first, and no
/// other page.
pub proof fn law_listed_pages(out: Seq<(PageId, Page)>, m: Map<u64, Seq<u8>>, id: u64)
    requires
        lists_pages(out, m),
    ensures
        m.contains_key(id) <==> exists|i: int| 0 <= i < out.len() && (#[trigger] out[i]).0 == id,
        forall|i: int|
            0 <= i < out.len() && (#[trigger] out[i]).0 == id ==> bytes_view(out[i].1) == m[id],
        forall|i: int, j: int|
            0 <= i < j < out.len() ==> (#[trigger] out[i]).0 < (#[trigger] out[j]).0,
{
}

} // verus!
