//! Maps from row keys, in key order.
use vstd::prelude::*;

use crate::common::KEY_SIZE;
use crate::key_order::{bytes_lt, lemma_lex_irreflexive, lemma_lex_total, lemma_lex_transitive,
    lex_lt};
use crate::layout::bytes_eq;

verus! {

/// Values by key; the keys ascend.
#[derive(Debug)]
pub struct KeyMap<T> {
    pub entries: Vec<([u8; KEY_SIZE], T)>,
}

pub open spec fn has_key<T>(es: Seq<([u8; KEY_SIZE], T)>, k: Seq<u8>) -> bool {
    exists|i: int| 0 <= i < es.len() && (#[trigger] es[i]).0@ == k
}

pub open spec fn key_place<T>(es: Seq<([u8; KEY_SIZE], T)>, k: Seq<u8>) -> int {
    choose|i: int| 0 <= i < es.len() && (#[trigger] es[i]).0@ == k
}

pub open spec fn entries_ascend<T>(es: Seq<([u8; KEY_SIZE], T)>) -> bool {
    forall|i: int, j: int| 0 <= i < j < es.len() ==> lex_lt((#[trigger] es[i]).0@, (#[trigger] es[j]).0@)
}

/// A key stands at one place only.
pub proof fn lemma_place<T>(es: Seq<([u8; KEY_SIZE], T)>, i: int)
    requires
        entries_ascend(es),
        0 <= i < es.len(),
    ensures
        has_key(es, es[i].0@),
        key_place(es, es[i].0@) == i,
{
    let k = es[i].0@;
    assert(es[i].0@ == k);
    let j = key_place(es, k);
    lemma_lex_irreflexive(k);
    if j < i {
        assert(lex_lt(es[j].0@, es[i].0@));
    } else if i < j {
        assert(lex_lt(es[i].0@, es[j].0@));
    }
}

impl<T> KeyMap<T> {
    pub open spec fn wf(&self) -> bool {
        entries_ascend(self.entries@)
    }

    pub open spec fn has(&self, k: Seq<u8>) -> bool {
        has_key(self.entries@, k)
    }

    /// The value of a key that is there.
    pub open spec fn at(&self, k: Seq<u8>) -> T {
        self.entries@[key_place(self.entries@, k)].1
    }

    pub fn new() -> (r: KeyMap<T>)
        ensures
            r.wf(),
            r.entries@.len() == 0,
            forall|k: Seq<u8>| !#[trigger] r.has(k),
    {
        KeyMap { entries: Vec::new() }
    }

    /// The place of a key, or the place where it belongs.
    pub fn find(&self, key: &[u8]) -> (r: std::result::Result<usize, usize>)
        requires
            self.wf(),
        ensures
            match r {
                Ok(i) => i < self.entries@.len() && self.entries@[i as int].0@ == key@ && self.has(
                    key@,
                ) && key_place(self.entries@, key@) == i,
                Err(i) => i <= self.entries@.len() && !self.has(key@) && (forall|j: int|
                    0 <= j < i ==> lex_lt((#[trigger] self.entries@[j]).0@, key@)) && (forall|j: int|
                    i <= j < self.entries@.len() ==> lex_lt(
                        key@,
                        (#[trigger] self.entries@[j]).0@,
                    )),
            },
    {
        let mut lo: usize = 0;
        let mut hi: usize = self.entries.len();
        while lo < hi
            invariant
                self.wf(),
                lo <= hi <= self.entries@.len(),
                forall|j: int| 0 <= j < lo ==> lex_lt((#[trigger] self.entries@[j]).0@, key@),
                forall|j: int|
                    hi <= j < self.entries@.len() ==> lex_lt(key@, (#[trigger] self.entries@[j]).0@),
            decreases hi - lo,
        {
            let mid: usize = lo + (hi - lo) / 2;
            let at = self.entries[mid].0.as_slice();
            if bytes_lt(at, key) {
                proof {
                    assert forall|j: int| 0 <= j < mid + 1 implies lex_lt(
                        (#[trigger] self.entries@[j]).0@,
                        key@,
                    ) by {
                        if lo <= j < mid {
                            lemma_lex_transitive(
                                self.entries@[j].0@,
                                self.entries@[mid as int].0@,
                                key@,
                            );
                        }
                    }
                }
                lo = mid + 1;
            } else if bytes_eq(at, key) {
                proof {
                    lemma_place(self.entries@, mid as int);
                }
                return Ok(mid);
            } else {
                proof {
                    lemma_lex_total(self.entries@[mid as int].0@, key@);
                    assert forall|j: int| mid <= j < self.entries@.len() implies lex_lt(
                        key@,
                        (#[trigger] self.entries@[j]).0@,
                    ) by {
                        if mid < j < hi {
                            lemma_lex_transitive(
                                key@,
                                self.entries@[mid as int].0@,
                                self.entries@[j].0@,
                            );
                        }
                    }
                }
                hi = mid;
            }
        }
        proof {
            lemma_lex_irreflexive(key@);
        }
        Err(lo)
    }

    /// The value of a key.
    pub fn get(&self, key: &[u8]) -> (r: Option<&T>)
        requires
            self.wf(),
        ensures
            match r {
                Some(v) => self.has(key@) && *v == self.at(key@),
                None => !self.has(key@),
            },
    {
        match self.find(key) {
            Ok(i) => Some(&self.entries[i].1),
            Err(_) => None,
        }
    }

    /// Sets the value of a key.
    pub fn insert(&mut self, key: [u8; KEY_SIZE], value: T)
        requires
            old(self).wf(),
        ensures
            final(self).wf(),
            forall|k: Seq<u8>| #[trigger] final(self).has(k) == (old(self).has(k) || k == key@),
            final(self).at(key@) == value,
            forall|k: Seq<u8>|
                old(self).has(k) && k != key@ ==> #[trigger] final(self).at(k) == old(self).at(k),
    {
        let ghost a = self.entries@;
        match self.find(key.as_slice()) {
            Ok(i) => {
                self.entries.set(i, (key, value));
                proof {
                    let b = self.entries@;
                    assert forall|x: int| 0 <= x < a.len() implies (#[trigger] b[x]).0@ == a[x].0@ by {}
                    assert forall|x: int, y: int| 0 <= x < y < b.len() implies lex_lt(
                        (#[trigger] b[x]).0@,
                        (#[trigger] b[y]).0@,
                    ) by {
                        assert(lex_lt(a[x].0@, a[y].0@));
                    }
                    lemma_place(b, i as int);
                    assert forall|k: Seq<u8>| #[trigger] self.has(k) == (old(self).has(k) || k
                        == key@) by {
                        if has_key(a, k) {
                            let x = key_place(a, k);
                            assert(b[x].0@ == k);
                        }
                        if has_key(b, k) {
                            let x = key_place(b, k);
                            assert(a[x].0@ == k);
                        }
                    }
                    assert forall|k: Seq<u8>| old(self).has(k) && k != key@ implies #[trigger] self.at(k)
                        == old(self).at(k) by {
                        let x = key_place(a, k);
                        assert(b[x].0@ == k);
                        lemma_place(b, x);
                    }
                }
            },
            Err(i) => {
                self.entries.insert(i, (key, value));
                proof {
                    let b = self.entries@;
                    let p = i as int;
                    assert forall|x: int, y: int| 0 <= x < y < b.len() implies lex_lt(
                        (#[trigger] b[x]).0@,
                        (#[trigger] b[y]).0@,
                    ) by {
                        let x2 = if x < p { x } else { x - 1 };
                        let y2 = if y < p { y } else { y - 1 };
                        if x != p {
                            assert(b[x] == a[x2]);
                        }
                        if y != p {
                            assert(b[y] == a[y2]);
                        }
                    }
                    assert(b[p].0@ == key@);
                    lemma_place(b, p);
                    assert forall|k: Seq<u8>| #[trigger] self.has(k) == (old(self).has(k) || k
                        == key@) by {
                        if has_key(a, k) {
                            let x = key_place(a, k);
                            let x2 = if x < p { x } else { x + 1 };
                            assert(b[x2].0@ == k);
                        }
                        if has_key(b, k) {
                            let x = key_place(b, k);
                            if x != p {
                                let x2 = if x < p { x } else { x - 1 };
                                assert(a[x2].0@ == k);
                            }
                        }
                    }
                    assert forall|k: Seq<u8>| old(self).has(k) && k != key@ implies #[trigger] self.at(k)
                        == old(self).at(k) by {
                        let x = key_place(a, k);
                        let x2 = if x < p { x } else { x + 1 };
                        assert(b[x2].0@ == k);
                        lemma_place(b, x2);
                    }
                }
            },
        }
    }
}

/// The 16 bytes from `o` on.
pub(crate) fn key_array(s: &[u8], o: usize) -> (r: [u8; KEY_SIZE])
    requires
        o + KEY_SIZE <= s@.len(),
    ensures
        r@ == s@.subrange(o as int, o + KEY_SIZE),
{
    let len: usize = s.len();
    let mut k: [u8; KEY_SIZE] = [0u8; KEY_SIZE];
    let mut i: usize = 0;
    while i < KEY_SIZE
        invariant
            i <= KEY_SIZE,
            len == s@.len(),
            o + KEY_SIZE <= len,
            forall|j: int| 0 <= j < i ==> k@[j] == s@[o + j],
        decreases KEY_SIZE - i,
    {
        k[i] = s[o + i];
        i += 1;
    }
    assert(k@ =~= s@.subrange(o as int, o + KEY_SIZE));
    k
}

} // verus!
