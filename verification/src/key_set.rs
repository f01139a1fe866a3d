//! Sets of keys, in key order.
use vstd::prelude::*;

use crate::key_order::{bytes_lt, lemma_lex_irreflexive, lemma_lex_total, lemma_lex_transitive, lex_lt};
use crate::layout::{bytes_eq, copy_bytes};

verus! {

/// Keys in strictly ascending order.
#[derive(Debug)]
pub struct KeySet {
    pub keys: Vec<Vec<u8>>,
}

pub open spec fn keys_ascend(ks: Seq<Vec<u8>>) -> bool {
    forall|i: int, j: int| 0 <= i < j < ks.len() ==> lex_lt(#[trigger] ks[i]@, #[trigger] ks[j]@)
}

pub open spec fn key_in(ks: Seq<Vec<u8>>, k: Seq<u8>) -> bool {
    exists|i: int| 0 <= i < ks.len() && #[trigger] ks[i]@ == k
}

impl View for KeySet {
    type V = Set<Seq<u8>>;

    open spec fn view(&self) -> Set<Seq<u8>> {
        Set::new(|k: Seq<u8>| key_in(self.keys@, k))
    }
}

impl KeySet {
    pub open spec fn wf(&self) -> bool {
        keys_ascend(self.keys@)
    }

    pub fn new() -> (r: KeySet)
        ensures
            r.wf(),
            r@ == Set::<Seq<u8>>::empty(),
            r.keys@.len() == 0,
    {
        let r = KeySet { keys: Vec::new() };
        assert(r@ =~= Set::<Seq<u8>>::empty());
        r
    }

    pub fn is_empty(&self) -> (r: bool)
        ensures
            r == (self.keys@.len() == 0),
            r == (self@ == Set::<Seq<u8>>::empty()),
    {
        proof {
            if self.keys@.len() > 0 {
                assert(self@.contains(self.keys@[0]@));
            } else {
                assert(self@ =~= Set::<Seq<u8>>::empty());
            }
        }
        self.keys.len() == 0
    }

    /// Puts a key into the set.
    pub fn insert(&mut self, key: &[u8])
        requires
            old(self).wf(),
        ensures
            final(self).wf(),
            final(self)@ == old(self)@.insert(key@),
    {
        let ghost ks = self.keys@;
        let n: usize = self.keys.len();
        let mut i: usize = 0;
        while i < n && bytes_lt(self.keys[i].as_slice(), key)
            invariant
                n == self.keys@.len(),
                self.keys@ == ks,
                i <= n,
                forall|j: int| 0 <= j < i ==> lex_lt(#[trigger] ks[j]@, key@),
            decreases n - i,
        {
            i += 1;
        }
        if i < n && bytes_eq(self.keys[i].as_slice(), key) {
            assert(self@ =~= old(self)@.insert(key@)) by {
                assert(ks[i as int]@ == key@);
            }
            return ;
        }
        let copy = copy_bytes(key);
        self.keys.insert(i, copy);
        proof {
            let ks2 = self.keys@;
            if i < n {
                lemma_lex_total(ks[i as int]@, key@);
            }
            assert forall|a: int, b: int| 0 <= a < b < ks2.len() implies lex_lt(
                #[trigger] ks2[a]@,
                #[trigger] ks2[b]@,
            ) by {
                if b < i {
                    assert(ks2[a] == ks[a] && ks2[b] == ks[b]);
                } else if b == i {
                    assert(ks2[a] == ks[a]);
                } else if a < i {
                    assert(ks2[a] == ks[a] && ks2[b] == ks[b - 1]);
                } else if a == i {
                    assert(ks2[b] == ks[b - 1]);
                    if b - 1 > i {
                        assert(lex_lt(ks[i as int]@, ks[b - 1]@));
                        lemma_lex_transitive(key@, ks[i as int]@, ks[b - 1]@);
                    }
                } else {
                    assert(ks2[a] == ks[a - 1] && ks2[b] == ks[b - 1]);
                }
            }
            assert forall|k: Seq<u8>| self@.contains(k) <==> old(self)@.insert(key@).contains(k) by {
                if key_in(ks, k) {
                    let j = choose|j: int| 0 <= j < ks.len() && #[trigger] ks[j]@ == k;
                    if j < i {
                        assert(ks2[j]@ == k);
                    } else {
                        assert(ks2[j + 1]@ == k);
                    }
                }
                if k == key@ {
                    assert(ks2[i as int]@ == k);
                }
                if key_in(ks2, k) {
                    let j = choose|j: int| 0 <= j < ks2.len() && #[trigger] ks2[j]@ == k;
                    if j < i {
                        assert(ks[j]@ == k);
                    } else if j > i {
                        assert(ks[j - 1]@ == k);
                    }
                }
            }
            assert(self@ =~= old(self)@.insert(key@));
        }
    }

    /// A copy of the set.
    pub fn duplicate(&self) -> (r: KeySet)
        requires
            self.wf(),
        ensures
            r.wf(),
            r@ == self@,
            r.keys@.len() == self.keys@.len(),
            forall|i: int| 0 <= i < r.keys@.len() ==> #[trigger] r.keys@[i]@ == self.keys@[i]@,
    {
        let n: usize = self.keys.len();
        let mut out: Vec<Vec<u8>> = Vec::new();
        let mut i: usize = 0;
        while i < n
            invariant
                n == self.keys@.len(),
                i <= n,
                out@.len() == i,
                forall|j: int| 0 <= j < i ==> #[trigger] out@[j]@ == self.keys@[j]@,
            decreases n - i,
        {
            out.push(copy_bytes(self.keys[i].as_slice()));
            i += 1;
        }
        proof {
            assert forall|a: int, b: int| 0 <= a < b < out@.len() implies lex_lt(
                #[trigger] out@[a]@,
                #[trigger] out@[b]@,
            ) by {
                assert(lex_lt(self.keys@[a]@, self.keys@[b]@));
            }
            assert forall|k: Seq<u8>| key_in(out@, k) <==> key_in(self.keys@, k) by {
                if key_in(out@, k) {
                    let j = choose|j: int| 0 <= j < out@.len() && #[trigger] out@[j]@ == k;
                    assert(self.keys@[j]@ == k);
                }
                if key_in(self.keys@, k) {
                    let j = choose|j: int|
                        0 <= j < self.keys@.len() && #[trigger] self.keys@[j]@ == k;
                    assert(out@[j]@ == k);
                }
            }
        }
        let r = KeySet { keys: out };
        assert(r@ =~= self@);
        r
    }
}

/// No key occurs twice.
pub proof fn lemma_keys_distinct(ks: Seq<Vec<u8>>)
    requires
        keys_ascend(ks),
    ensures
        forall|i: int, j: int|
            0 <= i < ks.len() && 0 <= j < ks.len() && i != j ==> #[trigger] ks[i]@
                != #[trigger] ks[j]@,
{
    assert forall|i: int, j: int|
        0 <= i < ks.len() && 0 <= j < ks.len() && i != j implies #[trigger] ks[i]@
        != #[trigger] ks[j]@ by {
        lemma_lex_irreflexive(ks[i]@);
        if i < j {
            assert(lex_lt(ks[i]@, ks[j]@));
        } else {
            assert(lex_lt(ks[j]@, ks[i]@));
        }
    }
}

} // verus!
