//! A cache of pages in shards; each shard forgets the page that was used least
//! recently.
use vstd::prelude::*;

use crate::common::{bytes_view, Page, PageId};
use bytes::Bytes;
use lru::LruCache;

verus! {

pub const DEFAULT_PAGE_CACHE_SHARDS: usize = 64;

/// Pages that a cache holds where no number is given.
pub const DEFAULT_PAGE_CACHE_PAGES: usize = 8192;

/// Most pages of one shard; with more, its table would not fit the address space
/// of a 32-bit machine.
pub const MAX_SHARD_PAGES: usize = 67108864;

/// `lru::LruCache`: a map of bounded size that forgets the entry that was used
/// least recently.
#[verifier::external_type_specification]
#[verifier::external_body]
#[verifier::reject_recursive_types(K)]
#[verifier::reject_recursive_types(V)]
#[verifier::reject_recursive_types(S)]
pub struct ExLruCache<K, V, S>(lru::LruCache<K, V, S>);

/// `lru::DefaultHasher`: how the cache hashes its keys.
#[verifier::external_type_specification]
#[verifier::external_body]
pub struct ExDefaultHasher(lru::DefaultHasher);

/// The pages in a shard, the one used last in front.
pub uninterp spec fn shard_pages(c: lru::LruCache<u64, bytes::Bytes>) -> Seq<(u64, Seq<u8>)>;

/// Most pages that a shard holds.
pub uninterp spec fn shard_limit(c: lru::LruCache<u64, bytes::Bytes>) -> nat;

pub open spec fn has_id(s: Seq<(u64, Seq<u8>)>, id: u64) -> bool {
    exists|i: int| 0 <= i < s.len() && (#[trigger] s[i]).0 == id
}

pub open spec fn place_of(s: Seq<(u64, Seq<u8>)>, id: u64) -> int {
    choose|i: int| 0 <= i < s.len() && (#[trigger] s[i]).0 == id
}

/// The pages without one of them.
pub open spec fn without_id(s: Seq<(u64, Seq<u8>)>, id: u64) -> Seq<(u64, Seq<u8>)> {
    if has_id(s, id) {
        s.remove(place_of(s, id))
    } else {
        s
    }
}

/// The pages after one of them was used.
pub open spec fn used(s: Seq<(u64, Seq<u8>)>, id: u64) -> Seq<(u64, Seq<u8>)> {
    if has_id(s, id) {
        seq![s[place_of(s, id)]] + without_id(s, id)
    } else {
        s
    }
}

/// The pages after one was put in; a full shard forgets its last page to make
/// room for a new one.
pub open spec fn put_in(s: Seq<(u64, Seq<u8>)>, limit: nat, id: u64, page: Seq<u8>) -> Seq<
    (u64, Seq<u8>),
> {
    if has_id(s, id) {
        seq![(id, page)] + without_id(s, id)
    } else if s.len() == limit {
        seq![(id, page)] + s.drop_last()
    } else {
        seq![(id, page)] + s
    }
}

/// `LruCache::new`: an empty cache that holds `cap` pages. The outside function
/// reserves room for them at once and panics where so much cannot be counted.
#[verifier::external_body]
fn shard_new(cap: usize) -> (r: LruCache<u64, Bytes>)
    requires
        0 < cap <= MAX_SHARD_PAGES,
    ensures
        shard_pages(r) == Seq::<(u64, Seq<u8>)>::empty(),
        shard_limit(r) == cap,
{
    LruCache::new(std::num::NonZeroUsize::new(cap).unwrap())
}

/// `LruCache::put`: puts a page in front; the page of the same id leaves, and
/// where there was none the last page of a full cache.
#[verifier::external_body]
fn shard_put(c: &mut LruCache<u64, Bytes>, id: u64, page: Bytes)
    ensures
        shard_limit(*final(c)) == shard_limit(*old(c)),
        shard_pages(*final(c)) == put_in(
            shard_pages(*old(c)),
            shard_limit(*old(c)),
            id,
            bytes_view(page),
        ),
{
    c.put(id, page);
}

/// `LruCache::get`: the page of an id, which moves to the front.
#[verifier::external_body]
fn shard_get(c: &mut LruCache<u64, Bytes>, id: u64) -> (r: Option<Bytes>)
    ensures
        shard_limit(*final(c)) == shard_limit(*old(c)),
        shard_pages(*final(c)) == used(shard_pages(*old(c)), id),
        match r {
            Some(p) => has_id(shard_pages(*old(c)), id) && exists|i: int|
                0 <= i < shard_pages(*old(c)).len() && #[trigger] shard_pages(*old(c))[i] == (
                    id,
                    bytes_view(p),
                ),
            None => !has_id(shard_pages(*old(c)), id),
        },
{
    c.get(&id).cloned()
}

/// `LruCache::contains`: whether the cache holds a page of the id; the order
/// stays as it is.
#[verifier::external_body]
fn shard_contains(c: &LruCache<u64, Bytes>, id: u64) -> (r: bool)
    ensures
        r == has_id(shard_pages(*c), id),
{
    c.contains(&id)
}

/// `LruCache::pop`: takes the page of an id out of the cache.
#[verifier::external_body]
fn shard_pop(c: &mut LruCache<u64, Bytes>, id: u64)
    ensures
        shard_limit(*final(c)) == shard_limit(*old(c)),
        shard_pages(*final(c)) == without_id(shard_pages(*old(c)), id),
{
    c.pop(&id);
}

/// `LruCache::len`: the number of pages in the cache.
#[verifier::external_body]
fn shard_len(c: &LruCache<u64, Bytes>) -> (r: usize)
    ensures
        r == shard_pages(*c).len(),
{
    c.len()
}

/// No id occurs twice.
pub open spec fn ids_distinct(s: Seq<(u64, Seq<u8>)>) -> bool {
    forall|i: int, j: int| 0 <= i < j < s.len() ==> (#[trigger] s[i]).0 != (#[trigger] s[j]).0
}

proof fn lemma_place(s: Seq<(u64, Seq<u8>)>, i: int)
    requires
        ids_distinct(s),
        0 <= i < s.len(),
    ensures
        has_id(s, s[i].0),
        place_of(s, s[i].0) == i,
{
    let j = place_of(s, s[i].0);
    assert(s[i].0 == s[i].0);
    if j < i {
        assert(s[j].0 != s[i].0);
    } else if i < j {
        assert(s[i].0 != s[j].0);
    }
}

/// The page of an id that is there.
pub open spec fn page_of(s: Seq<(u64, Seq<u8>)>, id: u64) -> Seq<u8> {
    s[place_of(s, id)].1
}

proof fn lemma_without(s: Seq<(u64, Seq<u8>)>, id: u64)
    requires
        ids_distinct(s),
    ensures
        ids_distinct(without_id(s, id)),
        without_id(s, id).len() == s.len() - (if has_id(s, id) {
            1int
        } else {
            0int
        }),
        forall|k: u64| #[trigger] has_id(without_id(s, id), k) == (has_id(s, k) && k != id),
        forall|k: u64|
            has_id(s, k) && k != id ==> #[trigger] page_of(without_id(s, id), k) == page_of(s, k),
{
    let t = without_id(s, id);
    if has_id(s, id) {
        let p = place_of(s, id);
        assert forall|i: int| 0 <= i < t.len() implies #[trigger] t[i] == s[if i < p {
            i
        } else {
            i + 1
        }] by {}
        assert(ids_distinct(t));
        assert forall|k: u64| #[trigger] has_id(t, k) == (has_id(s, k) && k != id) by {
            if has_id(t, k) {
                let i = place_of(t, k);
                let i2 = if i < p { i } else { i + 1 };
                assert(s[i2].0 == k);
                if i2 < p {
                    assert(s[i2].0 != s[p].0);
                } else {
                    assert(s[p].0 != s[i2].0);
                }
            }
            if has_id(s, k) && k != id {
                let i = place_of(s, k);
                let i2 = if i < p { i } else { i - 1 };
                assert(t[i2].0 == k);
            }
        }
        assert forall|k: u64| has_id(s, k) && k != id implies #[trigger] page_of(t, k) == page_of(
            s,
            k,
        ) by {
            let i = place_of(s, k);
            let i2 = if i < p { i } else { i - 1 };
            assert(t[i2] == s[i]);
            lemma_place(t, i2);
        }
    }
}

proof fn lemma_in_front(e: (u64, Seq<u8>), s: Seq<(u64, Seq<u8>)>)
    requires
        ids_distinct(s),
        !has_id(s, e.0),
    ensures
        ({
            let t = seq![e] + s;
            &&& ids_distinct(t)
            &&& t.len() == s.len() + 1
            &&& forall|k: u64| #[trigger] has_id(t, k) == (has_id(s, k) || k == e.0)
            &&& page_of(t, e.0) == e.1
            &&& forall|k: u64| has_id(s, k) ==> #[trigger] page_of(t, k) == page_of(s, k)
        }),
{
    let t = seq![e] + s;
    assert forall|i: int, j: int| 0 <= i < j < t.len() implies (#[trigger] t[i]).0 != (
    #[trigger] t[j]).0 by {
        assert(t[j] == s[j - 1]);
        if i == 0 {
            assert(s[j - 1].0 != e.0);
        } else {
            assert(t[i] == s[i - 1]);
        }
    }
    assert(t[0] == e);
    lemma_place(t, 0);
    assert forall|k: u64| #[trigger] has_id(t, k) == (has_id(s, k) || k == e.0) by {
        if has_id(s, k) {
            assert(t[place_of(s, k) + 1].0 == k);
        }
        if has_id(t, k) {
            let i = place_of(t, k);
            if i > 0 {
                assert(s[i - 1].0 == k);
            }
        }
    }
    assert forall|k: u64| has_id(s, k) implies #[trigger] page_of(t, k) == page_of(s, k) by {
        let i = place_of(s, k);
        assert(t[i + 1] == s[i]);
        lemma_place(t, i + 1);
    }
}

proof fn lemma_last_dropped(s: Seq<(u64, Seq<u8>)>)
    requires
        ids_distinct(s),
        s.len() > 0,
    ensures
        ids_distinct(s.drop_last()),
        forall|k: u64| #[trigger] has_id(s.drop_last(), k) == (has_id(s, k) && k != s.last().0),
        forall|k: u64|
            has_id(s, k) && k != s.last().0 ==> #[trigger] page_of(s.drop_last(), k) == page_of(
                s,
                k,
            ),
{
    let t = s.drop_last();
    let n = s.len() - 1;
    assert forall|i: int| 0 <= i < t.len() implies #[trigger] t[i] == s[i] by {}
    assert forall|k: u64| #[trigger] has_id(t, k) == (has_id(s, k) && k != s.last().0) by {
        if has_id(t, k) {
            let i = place_of(t, k);
            assert(s[i].0 == k);
            assert(s[i].0 != s[n].0);
        }
        if has_id(s, k) && k != s.last().0 {
            let i = place_of(s, k);
            assert(t[i].0 == k);
        }
    }
    assert forall|k: u64| has_id(s, k) && k != s.last().0 implies #[trigger] page_of(t, k)
        == page_of(s, k) by {
        let i = place_of(s, k);
        assert(t[i] == s[i]);
        lemma_place(t, i);
    }
}

/// Pages in shards: the page of an id stands in shard `id` modulo their number.
pub struct PageCache {
    pub shards: Vec<LruCache<u64, Bytes>>,
}

/// Pages of the first `n` shards.
pub open spec fn pages_total(shards: Seq<LruCache<u64, Bytes>>, n: int) -> int
    decreases n,
{
    if n <= 0 {
        0
    } else {
        pages_total(shards, n - 1) + shard_pages(shards[n - 1]).len()
    }
}

impl PageCache {
    /// The shard of an id.
    pub open spec fn shard_of(&self, id: u64) -> int {
        id as int % self.shards@.len() as int
    }

    /// The pages of the shard of an id, the one used last in front.
    pub open spec fn around(&self, id: u64) -> Seq<(u64, Seq<u8>)> {
        shard_pages(self.shards@[self.shard_of(id)])
    }

    /// Most pages of each shard.
    pub open spec fn limit(&self) -> nat {
        shard_limit(self.shards@[0])
    }

    pub open spec fn wf(&self) -> bool {
        &&& self.shards@.len() > 0
        &&& forall|i: int|
            0 <= i < self.shards@.len() ==> {
                let c = #[trigger] self.shards@[i];
                &&& ids_distinct(shard_pages(c))
                &&& shard_limit(c) == self.limit()
                &&& shard_pages(c).len() <= shard_limit(c)
                &&& shard_limit(c) > 0
            }
        &&& forall|i: int, k: u64|
            0 <= i < self.shards@.len() && #[trigger] has_id(shard_pages(self.shards@[i]), k)
                ==> self.shard_of(k) == i
    }

    /// The cache holds a page of the id.
    pub open spec fn has(&self, id: u64) -> bool {
        has_id(self.around(id), id)
    }

    /// The page of an id that the cache holds.
    pub open spec fn page(&self, id: u64) -> Seq<u8> {
        page_of(self.around(id), id)
    }

    /// A cache of 8192 pages.
    pub fn new(shards: usize) -> (r: PageCache)
        ensures
            r.wf(),
            r.shards@.len() == (if shards == 0 {
                1
            } else {
                shards as nat
            }),
            (r.limit() - 1) * r.shards@.len() < DEFAULT_PAGE_CACHE_PAGES <= r.limit()
                * r.shards@.len(),
            forall|id: u64| !#[trigger] r.has(id),
    {
        PageCache::new_with_capacity(shards, DEFAULT_PAGE_CACHE_PAGES)
    }

    /// A cache of `capacity_pages` pages, spread over the shards and rounded up.
    pub fn new_with_capacity(shards: usize, capacity_pages: usize) -> (r: PageCache)
        requires
            capacity_pages <= MAX_SHARD_PAGES * (if shards == 0 {
                1
            } else {
                shards as int
            }),
        ensures
            r.wf(),
            ({
                let count = if shards == 0 {
                    1
                } else {
                    shards as int
                };
                let cap = if capacity_pages == 0 {
                    1
                } else {
                    capacity_pages as int
                };
                &&& r.shards@.len() == count
                &&& (r.limit() - 1) * count < cap <= r.limit() * count
            }),
            forall|id: u64| !#[trigger] r.has(id),
    {
        let count: usize = if shards == 0 {
            1
        } else {
            shards
        };
        let cap: usize = if capacity_pages == 0 {
            1
        } else {
            capacity_pages
        };
        let per: usize = (cap - 1) / count + 1;
        proof {
            let q = (cap - 1) / (count as int);
            assert(q * count <= cap - 1 < q * count + count) by (nonlinear_arith)
                requires
                    q == (cap - 1) / (count as int),
                    count > 0,
                    cap > 0,
            ;
            assert((per - 1) * count < cap <= per * count) by (nonlinear_arith)
                requires
                    q * count <= cap - 1 < q * count + count,
                    per == q + 1,
            ;
            assert(per <= MAX_SHARD_PAGES) by (nonlinear_arith)
                requires
                    q * count <= cap - 1,
                    cap <= MAX_SHARD_PAGES * count,
                    per == q + 1,
                    count >= 1,
                    q >= 0,
            ;
        }
        let mut out: Vec<LruCache<u64, Bytes>> = Vec::new();
        let mut i: usize = 0;
        while i < count
            invariant
                0 < per <= MAX_SHARD_PAGES,
                i <= count,
                out@.len() == i,
                forall|j: int|
                    0 <= j < i ==> shard_limit(#[trigger] out@[j]) == per && shard_pages(
                        out@[j],
                    ).len() == 0,
            decreases count - i,
        {
            out.push(shard_new(per));
            i += 1;
        }
        let r = PageCache { shards: out };
        proof {
            assert forall|id: u64| !#[trigger] r.has(id) by {
                lemma_shard(r.shards@.len() as int, id);
                assert(shard_pages(r.shards@[r.shard_of(id)]).len() == 0);
            }
        }
        r
    }

    fn shard(&self, id: PageId) -> (r: usize)
        requires
            self.shards@.len() > 0,
        ensures
            r == self.shard_of(id),
            r < self.shards@.len(),
    {
        (id % (self.shards.len() as u64)) as usize
    }

    /// The page of an id; it counts as used.
    pub fn get(&mut self, page_id: PageId) -> (r: Option<Page>)
        requires
            old(self).wf(),
        ensures
            final(self).wf(),
            final(self).shards@.len() == old(self).shards@.len(),
            final(self).limit() == old(self).limit(),
            forall|k: u64| #[trigger] final(self).has(k) == old(self).has(k),
            forall|k: u64|
                old(self).has(k) ==> #[trigger] final(self).page(k) == old(self).page(k),
            final(self).around(page_id) == used(old(self).around(page_id), page_id),
            match r {
                Some(p) => old(self).has(page_id) && bytes_view(p) == old(self).page(page_id),
                None => !old(self).has(page_id),
            },
    {
        let ghost before = *self;
        let i: usize = self.shard(page_id);
        let c = &mut self.shards[i];
        let r = shard_get(c, page_id);
        proof {
            let s = before.around(page_id);
            lemma_without(s, page_id);
            if has_id(s, page_id) {
                let p = place_of(s, page_id);
                lemma_in_front(s[p], without_id(s, page_id));
                let j = choose|j: int|
                    0 <= j < s.len() && #[trigger] s[j] == (page_id, bytes_view(r->0));
                lemma_place(s, j);
            }
            before.lemma_shard_changed(self, i as int);
        }
        r
    }

    /// Puts a page in. A full shard forgets the page that was used least
    /// recently when the id is new to it.
    pub fn insert(&mut self, page_id: PageId, page: Page)
        requires
            old(self).wf(),
        ensures
            final(self).wf(),
            final(self).shards@.len() == old(self).shards@.len(),
            final(self).limit() == old(self).limit(),
            final(self).has(page_id),
            final(self).page(page_id) == bytes_view(page),
            ({
                let s = old(self).around(page_id);
                let full = !has_id(s, page_id) && s.len() == old(self).limit();
                &&& forall|k: u64|
                    k != page_id ==> #[trigger] final(self).has(k) == (old(self).has(k) && !(full
                        && k == s.last().0))
                &&& forall|k: u64|
                    k != page_id && final(self).has(k) ==> #[trigger] final(self).page(k) == old(self).page(k)
            }),
            final(self).around(page_id) == put_in(
                old(self).around(page_id),
                old(self).limit(),
                page_id,
                bytes_view(page),
            ),
    {
        let ghost before = *self;
        let ghost bytes = bytes_view(page);
        let i: usize = self.shard(page_id);
        let c = &mut self.shards[i];
        shard_put(c, page_id, page);
        proof {
            let s = before.around(page_id);
            let limit = before.limit();
            assert(shard_limit(before.shards@[i as int]) == limit);
            lemma_without(s, page_id);
            if has_id(s, page_id) {
                lemma_in_front((page_id, bytes), without_id(s, page_id));
            } else if s.len() == limit {
                lemma_last_dropped(s);
                lemma_in_front((page_id, bytes), s.drop_last());
            } else {
                lemma_in_front((page_id, bytes), s);
            }
            before.lemma_shard_changed(self, i as int);
            if s.len() == limit {
                assert(has_id(s, s[s.len() - 1].0));
            }
        }
    }

    /// Whether the cache holds a page of the id.
    pub fn contains(&self, page_id: PageId) -> (r: bool)
        requires
            self.wf(),
        ensures
            r == self.has(page_id),
    {
        let i: usize = self.shard(page_id);
        shard_contains(&self.shards[i], page_id)
    }

    /// Takes the page of an id out of the cache.
    pub fn remove(&mut self, page_id: PageId)
        requires
            old(self).wf(),
        ensures
            final(self).wf(),
            final(self).shards@.len() == old(self).shards@.len(),
            final(self).limit() == old(self).limit(),
            forall|k: u64| #[trigger] final(self).has(k) == (old(self).has(k) && k != page_id),
            forall|k: u64|
                final(self).has(k) ==> #[trigger] final(self).page(k) == old(self).page(k),
            final(self).around(page_id) == without_id(old(self).around(page_id), page_id),
    {
        let ghost before = *self;
        let i: usize = self.shard(page_id);
        let c = &mut self.shards[i];
        shard_pop(c, page_id);
        proof {
            lemma_without(before.around(page_id), page_id);
            before.lemma_shard_changed(self, i as int);
        }
    }

    /// Pages in the cache.
    pub fn len(&self) -> (r: usize)
        requires
            pages_total(self.shards@, self.shards@.len() as int) <= usize::MAX,
        ensures
            r == pages_total(self.shards@, self.shards@.len() as int),
    {
        let n: usize = self.shards.len();
        let mut total: usize = 0;
        let mut i: usize = 0;
        while i < n
            invariant
                n == self.shards@.len(),
                i <= n,
                total == pages_total(self.shards@, i as int),
                pages_total(self.shards@, n as int) <= usize::MAX,
            decreases n - i,
        {
            proof {
                lemma_total(self.shards@, i + 1, n as int);
            }
            total = total + shard_len(&self.shards[i]);
            i += 1;
        }
        total
    }

    pub fn is_empty(&self) -> (r: bool)
        requires
            pages_total(self.shards@, self.shards@.len() as int) <= usize::MAX,
        ensures
            r == (pages_total(self.shards@, self.shards@.len() as int) == 0),
    {
        self.len() == 0
    }

    /// One shard changed.
    proof fn lemma_shard_changed(&self, after: &PageCache, i: int)
        requires
            self.wf(),
            after.shards@.len() == self.shards@.len(),
            0 <= i < self.shards@.len(),
            forall|j: int| 0 <= j < self.shards@.len() && j != i ==> after.shards@[j] == self.shards@[j],
            shard_limit(after.shards@[i]) == shard_limit(self.shards@[i]),
            ids_distinct(shard_pages(after.shards@[i])),
            shard_pages(after.shards@[i]).len() <= shard_limit(after.shards@[i]),
            forall|k: u64| #[trigger]
                has_id(shard_pages(after.shards@[i]), k) ==> self.shard_of(k) == i,
        ensures
            after.wf(),
            after.limit() == self.limit(),
            forall|k: u64| #[trigger]
                self.shard_of(k) != i ==> after.has(k) == self.has(k) && after.page(k)
                    == self.page(k),
            forall|k: u64| #[trigger] after.shard_of(k) == self.shard_of(k),
    {
        assert(shard_limit(self.shards@[i]) == self.limit());
        assert(after.limit() == self.limit());
        assert forall|j: int| 0 <= j < after.shards@.len() implies {
            let c = #[trigger] after.shards@[j];
            &&& ids_distinct(shard_pages(c))
            &&& shard_limit(c) == after.limit()
            &&& shard_pages(c).len() <= shard_limit(c)
            &&& shard_limit(c) > 0
        } by {
            assert(shard_limit(self.shards@[j]) == self.limit());
        }
        assert forall|j: int, k: u64|
            0 <= j < after.shards@.len() && #[trigger] has_id(
                shard_pages(after.shards@[j]),
                k,
            ) implies after.shard_of(k) == j by {
            if j != i {
                assert(has_id(shard_pages(self.shards@[j]), k));
            }
        }
        assert forall|k: u64| #[trigger] self.shard_of(k) != i implies after.has(k) == self.has(k)
            && after.page(k) == self.page(k) by {
            lemma_shard(self.shards@.len() as int, k);
        }
    }
}

proof fn lemma_shard(n: int, id: u64)
    requires
        0 < n,
    ensures
        0 <= id as int % n < n,
{
}

proof fn lemma_total(shards: Seq<LruCache<u64, Bytes>>, i: int, n: int)
    requires
        0 <= i <= n <= shards.len(),
    ensures
        pages_total(shards, i) <= pages_total(shards, n),
    decreases n,
{
    if i < n {
        lemma_total(shards, i, n - 1);
    }
}

/// A cache that hands out page ids and knows which page is the root.
pub struct SharedPageProvider {
    pub pages: PageCache,
    pub next_page_id: u64,
    pub root: u64,
}

impl SharedPageProvider {
    pub fn new(pages: PageCache, next_page_id: u64) -> (r: SharedPageProvider)
        ensures
            r.pages == pages,
            r.next_page_id == next_page_id,
            r.root == 0,
    {
        SharedPageProvider { pages, next_page_id, root: 0 }
    }

    /// Pages in the cache.
    pub fn page_count(&self) -> (r: usize)
        requires
            pages_total(self.pages.shards@, self.pages.shards@.len() as int) <= usize::MAX,
        ensures
            r == pages_total(self.pages.shards@, self.pages.shards@.len() as int),
    {
        self.pages.len()
    }

    /// The page of an id, where the cache has not forgotten it.
    pub fn read_page(&mut self, page_id: PageId) -> (r: Option<Page>)
        requires
            old(self).pages.wf(),
        ensures
            final(self).pages.wf(),
            final(self).next_page_id == old(self).next_page_id,
            final(self).root == old(self).root,
            forall|k: u64| #[trigger] final(self).pages.has(k) == old(self).pages.has(k),
            forall|k: u64|
                old(self).pages.has(k) ==> #[trigger] final(self).pages.page(k) == old(
                    self).pages.page(k),
            match r {
                Some(p) => old(self).pages.has(page_id) && bytes_view(p) == old(self).pages.page(
                    page_id,
                ),
                None => !old(self).pages.has(page_id),
            },
    {
        self.pages.get(page_id)
    }

    /// Puts a page into the cache.
    pub fn write_page(&mut self, page_id: PageId, page: Page)
        requires
            old(self).pages.wf(),
        ensures
            final(self).pages.wf(),
            final(self).next_page_id == old(self).next_page_id,
            final(self).root == old(self).root,
            final(self).pages.has(page_id),
            final(self).pages.page(page_id) == bytes_view(page),
            final(self).pages.around(page_id) == put_in(
                old(self).pages.around(page_id),
                old(self).pages.limit(),
                page_id,
                bytes_view(page),
            ),
    {
        self.pages.insert(page_id, page);
    }

    /// Hands out a page id; after the last one the count begins anew.
    pub fn alloc_page_id(&mut self) -> (r: PageId)
        ensures
            r == old(self).next_page_id,
            final(self).next_page_id == (if r == u64::MAX {
                0
            } else {
                r + 1
            }),
            final(self).pages == old(self).pages,
            final(self).root == old(self).root,
    {
        let id: u64 = self.next_page_id;
        self.next_page_id = id.wrapping_add(1);
        id
    }

    pub fn root_page_id(&self) -> (r: PageId)
        ensures
            r == self.root,
    {
        self.root
    }

    pub fn set_root_page_id(&mut self, page_id: PageId)
        ensures
            final(self).root == page_id,
            final(self).pages == old(self).pages,
            final(self).next_page_id == old(self).next_page_id,
    {
        self.root = page_id;
    }
}

/// A page that was put into a shard is found, as it was put; every other page stays, but
/// for the one that was not used for longest where a new page finds no room; and the shard
/// does not grow beyond its limit.
pub proof fn law_put_page_is_found(
    s: Seq<(u64, Seq<u8>)>,
    limit: nat,
    id: u64,
    page: Seq<u8>,
    other: u64,
)
    requires
        ids_distinct(s),
        s.len() <= limit,
        0 < limit,
    ensures
        ({
            let t = put_in(s, limit, id, page);
            &&& t.len() > 0 && t[0] == (id, page)
            &&& t.len() <= limit
            &&& has_id(s, id) || s.len() < limit ==> forall|i: int|
                0 <= i < s.len() && (#[trigger] s[i]).0 != id ==> t.contains(s[i])
            &&& !has_id(s, id) && s.len() == limit ==> forall|i: int|
                0 <= i < s.len() - 1 ==> t.contains(#[trigger] s[i])
            &&& forall|i: int| 1 <= i < t.len() ==> s.contains(#[trigger] t[i]) && t[i].0 != id
        }),
{
    let t = put_in(s, limit, id, page);
    if has_id(s, id) {
        let p = place_of(s, id);
        let w = s.remove(p);
        assert forall|i: int| 0 <= i < s.len() && (#[trigger] s[i]).0 != id implies t.contains(
            s[i],
        ) by {
            if i < p {
                assert(t[i + 1] == s[i]);
            } else {
                assert(t[i] == s[i]);
            }
        }
        assert forall|i: int| 1 <= i < t.len() implies s.contains(#[trigger] t[i]) && t[i].0
            != id by {
            if i - 1 < p {
                assert(t[i] == s[i - 1]);
            } else {
                assert(t[i] == s[i]);
            }
        }
    } else {
        assert forall|i: int| 0 <= i < s.len() && (i < s.len() - 1 || s.len() < limit) implies
            t.contains(#[trigger] s[i]) by {
            assert(t[i + 1] == s[i]);
        }
        assert forall|i: int| 1 <= i < t.len() implies s.contains(#[trigger] t[i]) && t[i].0
            != id by {
            assert(t[i] == s[i - 1]);
        }
    }
}

/// Using a page brings it to the front, and changes no page.
pub proof fn law_used_page_is_in_front(s: Seq<(u64, Seq<u8>)>, id: u64)
    requires
        ids_distinct(s),
    ensures
        used(s, id).len() == s.len(),
        has_id(s, id) ==> used(s, id)[0].0 == id,
        !has_id(s, id) ==> used(s, id) == s,
        forall|i: int| 0 <= i < s.len() ==> used(s, id).contains(#[trigger] s[i]),
        forall|i: int| 0 <= i < used(s, id).len() ==> s.contains(#[trigger] used(s, id)[i]),
{
    let t = used(s, id);
    if has_id(s, id) {
        let p = place_of(s, id);
        assert forall|i: int| 0 <= i < s.len() implies t.contains(#[trigger] s[i]) by {
            if i < p {
                assert(t[i + 1] == s[i]);
            } else if i == p {
                assert(t[0] == s[i]);
            } else {
                assert(t[i] == s[i]);
            }
        }
        assert forall|i: int| 0 <= i < t.len() implies s.contains(#[trigger] t[i]) by {
            if i == 0 {
                assert(t[i] == s[p]);
            } else if i - 1 < p {
                assert(t[i] == s[i - 1]);
            } else {
                assert(t[i] == s[i]);
            }
        }
    }
}

} // verus!
