//! The order of byte strings, and the order of fixed-size keys as numbers.
use vstd::prelude::*;

use crate::common::KEY_SIZE;

use vstd::std_specs::btree::increasing_seq;
use vstd::std_specs::cmp::OrdSpec;

verus! {

/// Byte-wise lexicographic order: at the first difference `a` has the smaller
/// byte, or `a` is a proper prefix of `b`.
pub open spec fn lex_lt(a: Seq<u8>, b: Seq<u8>) -> bool {
    exists|i: int| #[trigger] lex_lt_at(a, b, i)
}

/// `a` and `b` agree below `i`, and `a` is smaller at `i`.
pub open spec fn lex_lt_at(a: Seq<u8>, b: Seq<u8>, i: int) -> bool {
    &&& 0 <= i <= a.len()
    &&& i < b.len()
    &&& forall|k: int| 0 <= k < i ==> a[k] == b[k]
    &&& i < a.len() ==> a[i] < b[i]
}

/// The number whose big-endian digits are the bytes of `s`.
pub open spec fn be_num(s: Seq<u8>) -> int
    decreases s.len(),
{
    if s.len() == 0 {
        0
    } else {
        be_num(s.drop_last()) * 256 + s.last()
    }
}

/// One more than the largest number a key can have.
pub open spec fn key_top() -> int {
    0x1_0000_0000_0000_0000_0000_0000_0000_0000int
}

/// Whether `s` has the size of a key.
pub open spec fn is_key(s: Seq<u8>) -> bool {
    s.len() == KEY_SIZE
}

/// Nothing is below itself.
pub proof fn lemma_lex_irreflexive(a: Seq<u8>)
    ensures
        !lex_lt(a, a),
{
}

/// Of two byte strings one is smaller or they are equal.
pub proof fn lemma_lex_total(a: Seq<u8>, b: Seq<u8>)
    ensures
        lex_lt(a, b) || lex_lt(b, a) || a == b,
{
    lemma_lex_total_from(a, b, 0);
}

proof fn lemma_lex_total_from(a: Seq<u8>, b: Seq<u8>, i: int)
    requires
        0 <= i <= a.len(),
        i <= b.len(),
        forall|k: int| 0 <= k < i ==> a[k] == b[k],
    ensures
        lex_lt(a, b) || lex_lt(b, a) || a == b,
    decreases a.len() - i,
{
    if i == a.len() && i == b.len() {
        assert(a =~= b);
    } else if i == a.len() {
        assert(lex_lt_at(a, b, i));
    } else if i == b.len() {
        assert(lex_lt_at(b, a, i));
    } else if a[i] < b[i] {
        assert(lex_lt_at(a, b, i));
    } else if b[i] < a[i] {
        assert(lex_lt_at(b, a, i));
    } else {
        lemma_lex_total_from(a, b, i + 1);
    }
}

/// The order is transitive.
pub proof fn lemma_lex_transitive(a: Seq<u8>, b: Seq<u8>, c: Seq<u8>)
    requires
        lex_lt(a, b),
        lex_lt(b, c),
    ensures
        lex_lt(a, c),
{
    let i = choose|i: int| lex_lt_at(a, b, i);
    let j = choose|j: int| lex_lt_at(b, c, j);
    let m = if i < j {
        i
    } else {
        j
    };
    assert(lex_lt_at(a, c, m));
}

/// Two byte strings are never each below the other.
pub proof fn lemma_lex_asymmetric(a: Seq<u8>, b: Seq<u8>)
    requires
        lex_lt(a, b),
    ensures
        !lex_lt(b, a),
{
    if lex_lt(b, a) {
        lemma_lex_transitive(a, b, a);
        lemma_lex_irreflexive(a);
    }
}

/// `256` to the power `n`.
pub open spec fn pow256(n: nat) -> int
    decreases n,
{
    if n == 0 {
        1
    } else {
        256 * pow256((n - 1) as nat)
    }
}

proof fn lemma_pow256_16()
    ensures
        pow256(16) == key_top(),
{
    reveal_with_fuel(pow256, 17);
}

proof fn lemma_be_num_range(s: Seq<u8>)
    ensures
        0 <= be_num(s) < pow256(s.len()),
    decreases s.len(),
{
    if s.len() > 0 {
        lemma_be_num_range(s.drop_last());
    }
}

/// The number of a key lies below `key_top`.
pub proof fn lemma_key_range(s: Seq<u8>)
    requires
        is_key(s),
    ensures
        0 <= be_num(s) < key_top(),
{
    lemma_be_num_range(s);
    lemma_pow256_16();
}

proof fn lemma_prefix_lt(a: Seq<u8>, b: Seq<u8>, n: int, m: int)
    requires
        a.len() == b.len(),
        0 <= n <= m <= a.len(),
        be_num(a.take(n)) < be_num(b.take(n)),
    ensures
        be_num(a.take(m)) < be_num(b.take(m)),
    decreases m,
{
    if n < m {
        lemma_prefix_lt(a, b, n, m - 1);
        assert(a.take(m).drop_last() =~= a.take(m - 1));
        assert(b.take(m).drop_last() =~= b.take(m - 1));
    }
}

/// For byte strings of one length the lexicographic order is the order of their numbers.
pub proof fn lemma_lex_is_num_order(a: Seq<u8>, b: Seq<u8>)
    requires
        a.len() == b.len(),
    ensures
        lex_lt(a, b) <==> be_num(a) < be_num(b),
        a == b <==> be_num(a) == be_num(b),
{
    lemma_lex_total(a, b);
    lemma_lex_irreflexive(a);
    if lex_lt(a, b) {
        lemma_lex_lt_num(a, b);
    }
    if lex_lt(b, a) {
        lemma_lex_lt_num(b, a);
    }
}

proof fn lemma_lex_lt_num(a: Seq<u8>, b: Seq<u8>)
    requires
        a.len() == b.len(),
        lex_lt(a, b),
    ensures
        be_num(a) < be_num(b),
{
    let i = choose|i: int| lex_lt_at(a, b, i);
    assert(a.take(i) =~= b.take(i));
    assert(a.take(i + 1).drop_last() =~= a.take(i));
    assert(b.take(i + 1).drop_last() =~= b.take(i));
    lemma_prefix_lt(a, b, i + 1, a.len() as int);
    assert(a.take(a.len() as int) =~= a);
    assert(b.take(b.len() as int) =~= b);
}

/// Compares two byte strings.
pub fn bytes_lt(a: &[u8], b: &[u8]) -> (r: bool)
    ensures
        r == lex_lt(a@, b@),
{
    let mut i: usize = 0;
    loop
        invariant
            i <= a@.len(),
            i <= b@.len(),
            forall|k: int| 0 <= k < i ==> a@[k] == b@[k],
        decreases a@.len() - i,
    {
        if i == b.len() {
            assert forall|j: int| !lex_lt_at(a@, b@, j) by {}
            return false;
        }
        if i == a.len() {
            assert(lex_lt_at(a@, b@, i as int));
            return true;
        }
        if a[i] < b[i] {
            assert(lex_lt_at(a@, b@, i as int));
            return true;
        }
        if b[i] < a[i] {
            assert forall|j: int| !lex_lt_at(a@, b@, j) by {
                if lex_lt_at(a@, b@, j) {
                    assert(j <= i);
                }
            }
            return false;
        }
        i += 1;
    }
}

/// `s` filled up with zero bytes to the size of a key.
pub open spec fn padded(s: Seq<u8>) -> Seq<u8> {
    s + Seq::new((KEY_SIZE - s.len()) as nat, |i: int| 0u8)
}

/// The largest number of a key that is not above `s`, for `s` of any length;
/// below zero when every key is above.
pub open spec fn route_num(s: Seq<u8>) -> int {
    if s.len() < KEY_SIZE {
        be_num(padded(s)) - 1
    } else {
        be_num(s.take(KEY_SIZE as int))
    }
}

/// A key is above `s` exactly when its number is above the number of `s`.
pub proof fn lemma_route_num(s: Seq<u8>, k: Seq<u8>)
    requires
        is_key(k),
    ensures
        lex_lt(s, k) <==> route_num(s) < be_num(k),
        is_key(s) ==> route_num(s) == be_num(s),
        route_num(s) < key_top(),
{
    if s.len() < KEY_SIZE {
        let p = padded(s);
        lemma_key_range(p);
        lemma_lex_is_num_order(k, p);
        if lex_lt(s, k) {
            let i = choose|i: int| lex_lt_at(s, k, i);
            if lex_lt(k, p) {
                let j = choose|j: int| lex_lt_at(k, p, j);
                if j < i {
                    assert(k[j] == s[j]);
                } else if i < s.len() {
                    assert(p[i] == s[i]);
                }
            }
        } else {
            lemma_lex_total(s, k);
            let i = choose|i: int| lex_lt_at(k, s, i);
            assert(lex_lt_at(k, p, i));
        }
    } else {
        let t = s.take(KEY_SIZE as int);
        lemma_key_range(t);
        lemma_lex_is_num_order(t, k);
        if is_key(s) {
            assert(t =~= s);
        }
        if lex_lt(s, k) {
            let i = choose|i: int| lex_lt_at(s, k, i);
            assert(lex_lt_at(t, k, i));
        }
        if lex_lt(t, k) {
            let i = choose|i: int| lex_lt_at(t, k, i);
            assert(lex_lt_at(s, k, i));
        }
    }
}

/// `a` is not above `b`.
pub open spec fn lex_le(a: Seq<u8>, b: Seq<u8>) -> bool {
    !lex_lt(b, a)
}

/// The keys of a `BTreeMap`, in the order in which it is walked, are ascending.
pub proof fn lemma_increasing(ks: Seq<u64>)
    requires
        increasing_seq(ks),
    ensures
        forall|i: int, j: int| 0 <= i < j < ks.len() ==> #[trigger] ks[i] < #[trigger] ks[j],
{
    broadcast use vstd::std_specs::btree::group_btree_axioms;

    assert forall|i: int, j: int| 0 <= i < j < ks.len() implies #[trigger] ks[i] < #[trigger] ks[j] by {
        assert(ks[i].cmp_spec(&ks[j]) is Less);
    }
}

/// The order of keys is that of their bytes: at the first place where two keys differ, the
/// smaller byte decides.
pub proof fn law_first_difference_decides(a: Seq<u8>, b: Seq<u8>, i: int)
    requires
        0 <= i < a.len(),
        i < b.len(),
        forall|j: int| 0 <= j < i ==> #[trigger] a[j] == b[j],
        a[i] != b[i],
    ensures
        lex_lt(a, b) <==> a[i] < b[i],
{
    if a[i] < b[i] {
        assert(lex_lt_at(a, b, i));
    } else {
        assert(lex_lt_at(b, a, i)) by {
            assert forall|j: int| 0 <= j < i implies b[j] == a[j] by {
                assert(a[j] == b[j]);
            }
        }
        lemma_lex_asymmetric(b, a);
    }
}

} // verus!
