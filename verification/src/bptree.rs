//! A B+ tree of page ids in memory.
use vstd::prelude::*;

use crate::common::PageId;

verus! {

/// Most keys of a node.
pub const MAX_KEYS: usize = 8;

/// A set of page ids.
#[derive(Debug)]
pub struct BPlusTree {
    pub root: Node,
}

#[derive(Debug)]
pub enum Node {
    Leaf { keys: Vec<PageId> },
    Internal { keys: Vec<PageId>, children: Vec<Box<Node>> },
}

pub open spec fn ascending(keys: Seq<u64>) -> bool {
    forall|i: int, j: int| 0 <= i < j < keys.len() ==> #[trigger] keys[i] < #[trigger] keys[j]
}

/// The lower bound of child `i` of a node whose ids lie in `lo..hi`; that of one
/// child is the upper bound of the child before it.
pub open spec fn bound(keys: Seq<u64>, i: int, lo: int, hi: int) -> int {
    if i <= 0 {
        lo
    } else if i <= keys.len() {
        keys[i - 1] as int
    } else {
        hi
    }
}

/// The ids below a node lie in `lo..hi` and in order, and no node has more
/// than `MAX_KEYS` keys, the node itself no more than `most`.
pub open spec fn node_ok(n: Node, lo: int, hi: int, most: int) -> bool
    decreases n,
{
    match n {
        Node::Leaf { keys } => {
            &&& keys@.len() <= most
            &&& ascending(keys@)
            &&& forall|i: int| 0 <= i < keys@.len() ==> lo <= #[trigger] keys@[i] < hi
        },
        Node::Internal { keys, children } => {
            &&& keys@.len() <= most
            &&& ascending(keys@)
            &&& forall|i: int| 0 <= i < keys@.len() ==> lo <= #[trigger] keys@[i] < hi
            &&& children@.len() == keys@.len() + 1
            &&& forall|i: int|
                0 <= i < children@.len() ==> node_ok(
                    *(#[trigger] children@[i]),
                    bound(keys@, i, lo, hi),
                    bound(keys@, i + 1, lo, hi),
                    MAX_KEYS as int,
                )
        },
    }
}

/// An id stands in a leaf below a node.
pub open spec fn holds(n: Node, k: u64) -> bool
    decreases n,
{
    match n {
        Node::Leaf { keys } => keys@.contains(k),
        Node::Internal { keys, children } => kids_hold(children@, k),
    }
}

/// An id stands below one of the children.
pub open spec fn kids_hold(children: Seq<Box<Node>>, k: u64) -> bool
    decreases children,
{
    exists|i: int| 0 <= i < children.len() && holds(*(#[trigger] children[i]), k)
}

/// What `holds` says of a leaf and of an internal node.
proof fn lemma_holds(n: Node)
    ensures
        n is Leaf ==> forall|k: u64| #[trigger] holds(n, k) == n->Leaf_keys@.contains(k),
        n is Internal ==> forall|k: u64| #[trigger] holds(n, k) == kids_hold(n->children@, k),
{
}

proof fn lemma_holds_between(n: Node, lo: int, hi: int, most: int, k: u64)
    requires
        node_ok(n, lo, hi, most),
        holds(n, k),
    ensures
        lo <= k < hi,
    decreases n,
{
    if let Node::Internal { keys, children } = n {
        let i = choose|i: int| 0 <= i < children@.len() && holds(*(#[trigger] children@[i]), k);
        lemma_holds_between(
            *children@[i],
            bound(keys@, i, lo, hi),
            bound(keys@, i + 1, lo, hi),
            MAX_KEYS as int,
            k,
        );
    }
}

/// The keys and the children of an internal node whose ids lie in `lo..hi`.
pub open spec fn kids_ok(keys: Seq<u64>, children: Seq<Box<Node>>, lo: int, hi: int) -> bool {
    &&& ascending(keys)
    &&& forall|i: int| 0 <= i < keys.len() ==> lo <= #[trigger] keys[i] < hi
    &&& children.len() == keys.len() + 1
    &&& forall|i: int|
        0 <= i < children.len() ==> node_ok(
            *(#[trigger] children[i]),
            bound(keys, i, lo, hi),
            bound(keys, i + 1, lo, hi),
            MAX_KEYS as int,
        )
}

/// An id below an internal node stands below the child that its keys lead to.
proof fn lemma_routed(keys: Seq<u64>, children: Seq<Box<Node>>, lo: int, hi: int, c: int, k: u64)
    requires
        kids_ok(keys, children, lo, hi),
        is_route(keys, k, c),
    ensures
        kids_hold(children, k) <==> holds(*children[c], k),
        lo <= k < hi ==> bound(keys, c, lo, hi) <= k < bound(keys, c + 1, lo, hi),
{
    assert forall|i: int| 0 <= i < children.len() && holds(*(#[trigger] children[i]), k) implies i
        == c by {
        lemma_holds_between(
            *children[i],
            bound(keys, i, lo, hi),
            bound(keys, i + 1, lo, hi),
            MAX_KEYS as int,
            k,
        );
    }
    if holds(*children[c], k) {
        assert(kids_hold(children, k));
    }
}

/// Child `c` is the one for `k`: the keys before it are not above `k`, those
/// from it on are.
pub open spec fn is_route(keys: Seq<u64>, k: u64, c: int) -> bool {
    &&& 0 <= c <= keys.len()
    &&& forall|i: int| 0 <= i < c ==> #[trigger] keys[i] <= k
    &&& forall|i: int| c <= i < keys.len() ==> k < #[trigger] keys[i]
}

/// The child for an id.
fn child_index(keys: &Vec<PageId>, key: PageId) -> (r: usize)
    requires
        ascending(keys@),
    ensures
        is_route(keys@, key, r as int),
{
    let mut lo: usize = 0;
    let mut hi: usize = keys.len();
    while lo < hi
        invariant
            ascending(keys@),
            lo <= hi <= keys@.len(),
            forall|i: int| 0 <= i < lo ==> #[trigger] keys@[i] <= key,
            forall|i: int| hi <= i < keys@.len() ==> key < #[trigger] keys@[i],
        decreases hi - lo,
    {
        let mid: usize = lo + (hi - lo) / 2;
        if keys[mid] <= key {
            lo = mid + 1;
        } else {
            hi = mid;
        }
    }
    lo
}

/// Whether an id stands in sorted keys, given the place that `child_index` finds.
fn present_before(keys: &Vec<PageId>, at: usize, key: PageId) -> (r: bool)
    requires
        ascending(keys@),
        is_route(keys@, key, at as int),
    ensures
        r == keys@.contains(key),
        r ==> at > 0 && keys@[at - 1] == key,
{
    let r = at > 0 && keys[at - 1] == key;
    proof {
        if keys@.contains(key) {
            let i = choose|i: int| 0 <= i < keys@.len() && keys@[i] == key;
            assert(i < at);
            if i < at - 1 {
                assert(keys@[i] < keys@[at - 1]);
            }
        } else if r {
            assert(keys@[at - 1] == key);
        }
    }
    r
}

impl Node {
    fn contains(&self, key: PageId) -> (r: bool)
        requires
            exists|lo: int, hi: int, most: int| node_ok(*self, lo, hi, most),
        ensures
            r == holds(*self, key),
        decreases *self,
    {
        let ghost (lo, hi, most) = choose|lo: int, hi: int, most: int| node_ok(*self, lo, hi, most);
        match self {
            Node::Leaf { keys } => {
                let at = child_index(keys, key);
                present_before(keys, at, key)
            },
            Node::Internal { keys, children } => {
                let c: usize = child_index(keys, key);
                proof {
                    lemma_routed(keys@, children@, lo, hi, c as int, key);
                    assert(node_ok(
                        *children@[c as int],
                        bound(keys@, c as int, lo, hi),
                        bound(keys@, c + 1, lo, hi),
                        MAX_KEYS as int,
                    ));
                }
                children[c].contains(key)
            },
        }
    }

    /// Puts an id below the node; `true` when the node has a key too many.
    fn insert(&mut self, key: PageId, Ghost(lo): Ghost<int>, Ghost(hi): Ghost<int>) -> (r: bool)
        requires
            node_ok(*old(self), lo, hi, MAX_KEYS as int),
            lo <= key < hi,
        ensures
            node_ok(*final(self), lo, hi, MAX_KEYS + 1),
            !r ==> node_ok(*final(self), lo, hi, MAX_KEYS as int),
            r ==> node_keys(*final(self)).len() == MAX_KEYS + 1,
            forall|k: u64| #[trigger] holds(*final(self), k) == (holds(*old(self), k) || k == key),
        decreases *old(self),
    {
        let ghost mut grown: Seq<Box<Node>> = seq![];
        let ghost before = *self;
        let r = match self {
            Node::Leaf { keys } => {
                let ghost a = keys@;
                let at: usize = child_index(keys, key);
                if present_before(keys, at, key) {
                    return false;
                }
                keys.insert(at, key);
                let full = keys.len() > MAX_KEYS;
                proof {
                    lemma_key_inserted(a, at as int, key);
                    assert forall|i: int| 0 <= i < keys@.len() implies lo <= #[trigger] keys@[i]
                        < hi by {
                        assert(keys@.contains(keys@[i]));
                    }
                }
                full
            },
            Node::Internal { keys, children } => {
                let ghost ks = keys@;
                let ghost kids = children@;
                let c: usize = child_index(keys, key);
                let ghost b0 = bound(ks, c as int, lo, hi);
                let ghost b1 = bound(ks, c + 1, lo, hi);
                proof {
                    assert(kids_ok(ks, kids, lo, hi));
                    lemma_routed(ks, kids, lo, hi, c as int, key);
                    assert(node_ok(*kids[c as int], b0, b1, MAX_KEYS as int));
                }
                let child = &mut children[c];
                let over = child.insert(key, Ghost(b0), Ghost(b1));
                if over {
                    let ghost mid = **child;
                    let (promote, right) = child.split(Ghost(b0), Ghost(b1));
                    let ghost r0 = right;
                    keys.insert(c, promote);
                    children.insert(c + 1, right);
                    proof {
                        let left = children@[c as int];
                        assert(children@ =~= kids.update(c as int, left).insert(c + 1, r0));
                        lemma_kid_split(ks, kids, lo, hi, c as int, promote, left, r0);
                        assert forall|k: u64| #[trigger] kids_hold(children@, k) == (kids_hold(
                            kids,
                            k,
                        ) || k == key) by {
                            lemma_kid_split_holds(kids, c as int, left, r0, k);
                            assert(holds(mid, k) == (holds(*kids[c as int], k) || k == key));
                            assert(holds(mid, k) == (holds(*left, k) || holds(*r0, k)));
                        }
                        grown = children@;
                    }
                    keys.len() > MAX_KEYS
                } else {
                    proof {
                        let left = children@[c as int];
                        assert(children@ =~= kids.update(c as int, left));
                        lemma_kid_replaced(ks, kids, lo, hi, c as int, left);
                        assert forall|k: u64| #[trigger] kids_hold(children@, k) == (kids_hold(
                            kids,
                            k,
                        ) || k == key) by {
                            lemma_kid_replaced_holds(kids, c as int, left, k);
                            assert(holds(*left, k) == (holds(*kids[c as int], k) || k == key));
                        }
                        grown = children@;
                    }
                    false
                }
            },
        };
        proof {
            lemma_holds(before);
            lemma_holds(*self);
            if *self is Internal {
                assert(self->children@ == grown);
            }
        }
        r
    }

    /// Moves the upper half of a node that has a key too many into a new node.
    /// Returns the key between the two, and the new node.
    fn split(&mut self, Ghost(lo): Ghost<int>, Ghost(hi): Ghost<int>) -> (r: (PageId, Box<Node>))
        requires
            node_ok(*old(self), lo, hi, MAX_KEYS + 1),
            node_keys(*old(self)).len() == MAX_KEYS + 1,
        ensures
            lo < r.0 < hi,
            node_ok(*final(self), lo, r.0 as int, MAX_KEYS as int),
            node_ok(*r.1, r.0 as int, hi, MAX_KEYS as int),
            forall|k: u64| #[trigger]
                holds(*old(self), k) == (holds(*final(self), k) || holds(*r.1, k)),
    {
        let ghost mut lower: Seq<Box<Node>> = seq![];
        let ghost before = *self;
        let r = match self {
            Node::Leaf { keys } => {
                let ghost a = keys@;
                let mid: usize = keys.len() / 2;
                let right_keys = keys.split_off(mid);
                let promote: PageId = right_keys[0];
                proof {
                    let m = mid as int;
                    assert(keys@ =~= a.take(m));
                    assert(right_keys@ =~= a.skip(m));
                    assert(a[0] < a[m]);
                    assert forall|k: u64| #[trigger] a.contains(k) == (keys@.contains(k)
                        || right_keys@.contains(k)) by {
                        lemma_halves(a, m, k);
                    }
                }
                (promote, Box::new(Node::Leaf { keys: right_keys }))
            },
            Node::Internal { keys, children } => {
                let ghost a = keys@;
                let ghost kids = children@;
                let mid: usize = keys.len() / 2;
                let promote: PageId = keys[mid];
                let right_keys = keys.split_off(mid + 1);
                let right_children = children.split_off(mid + 1);
                let _ = keys.pop();
                proof {
                    let m = mid as int;
                    assert(keys@ =~= a.take(m));
                    assert(right_keys@ =~= a.skip(m + 1));
                    assert(children@ =~= kids.take(m + 1));
                    assert(right_children@ =~= kids.skip(m + 1));
                    assert(a[0] < a[m]);
                    lemma_kids_halved(a, kids, lo, hi, m);
                    assert forall|k: u64| #[trigger] kids_hold(kids, k) == (kids_hold(
                        children@,
                        k,
                    ) || kids_hold(right_children@, k)) by {
                        lemma_kids_halved_hold(kids, m + 1, k);
                    }
                    lower = children@;
                }
                (promote, Box::new(Node::Internal { keys: right_keys, children: right_children }))
            },
        };
        proof {
            lemma_holds(before);
            lemma_holds(*self);
            lemma_holds(*r.1);
            if *self is Internal {
                assert(self->children@ == lower);
            }
        }
        r
    }

    /// Takes an id out of the leaf that holds it.
    fn remove(&mut self, key: PageId, Ghost(lo): Ghost<int>, Ghost(hi): Ghost<int>)
        requires
            node_ok(*old(self), lo, hi, MAX_KEYS as int),
        ensures
            node_ok(*final(self), lo, hi, MAX_KEYS as int),
            forall|k: u64| #[trigger] holds(*final(self), k) == (holds(*old(self), k) && k != key),
            *old(self) is Internal ==> *final(self) is Internal && node_keys(*final(self))
                == node_keys(*old(self)),
        decreases *old(self),
    {
        let ghost mut left_over: Seq<Box<Node>> = seq![];
        let ghost before = *self;
        match self {
            Node::Leaf { keys } => {
                let ghost a = keys@;
                let at: usize = child_index(keys, key);
                if present_before(keys, at, key) {
                    let _ = keys.remove(at - 1);
                    proof {
                        lemma_key_removed(a, at - 1, key);
                        assert forall|i: int| 0 <= i < keys@.len() implies lo <= #[trigger] keys@[i]
                            < hi by {
                            assert(keys@.contains(keys@[i]));
                        }
                    }
                }
            },
            Node::Internal { keys, children } => {
                let ghost ks = keys@;
                let ghost kids = children@;
                let c: usize = child_index(keys, key);
                let ghost b0 = bound(ks, c as int, lo, hi);
                let ghost b1 = bound(ks, c + 1, lo, hi);
                proof {
                    assert(kids_ok(ks, kids, lo, hi));
                    lemma_routed(ks, kids, lo, hi, c as int, key);
                    assert(node_ok(*kids[c as int], b0, b1, MAX_KEYS as int));
                }
                let child = &mut children[c];
                child.remove(key, Ghost(b0), Ghost(b1));
                proof {
                    let left = children@[c as int];
                    assert(children@ =~= kids.update(c as int, left));
                    lemma_kid_replaced(ks, kids, lo, hi, c as int, left);
                    assert forall|k: u64| #[trigger] kids_hold(children@, k) == (kids_hold(kids, k)
                        && k != key) by {
                        lemma_kid_replaced_holds(kids, c as int, left, k);
                        assert(holds(*left, k) == (holds(*kids[c as int], k) && k != key));
                        if k == key {
                            lemma_routed(ks, children@, lo, hi, c as int, key);
                        }
                    }
                    left_over = children@;
                }
            },
        }
        proof {
            lemma_holds(before);
            lemma_holds(*self);
            if *self is Internal {
                assert(self->children@ == left_over);
            }
        }
    }
}

/// The keys of a node.
pub open spec fn node_keys(n: Node) -> Seq<u64> {
    match n {
        Node::Leaf { keys } => keys@,
        Node::Internal { keys, children } => keys@,
    }
}

proof fn lemma_key_inserted(a: Seq<u64>, at: int, key: u64)
    requires
        ascending(a),
        is_route(a, key, at),
        !a.contains(key),
    ensures
        ascending(a.insert(at, key)),
        forall|k: u64| #[trigger] a.insert(at, key).contains(k) == (a.contains(k) || k == key),
{
    let b = a.insert(at, key);
    assert forall|i: int, j: int| 0 <= i < j < b.len() implies #[trigger] b[i] < #[trigger] b[j] by {
        let i2 = if i < at { i } else { i - 1 };
        let j2 = if j < at { j } else { j - 1 };
        if i != at {
            assert(b[i] == a[i2]);
        }
        if j != at {
            assert(b[j] == a[j2]);
        }
        if i < at && j == at {
            assert(a[i] != key);
        }
    }
    assert forall|k: u64| #[trigger] b.contains(k) == (a.contains(k) || k == key) by {
        if a.contains(k) {
            let i = choose|i: int| 0 <= i < a.len() && a[i] == k;
            let i2 = if i < at { i } else { i + 1 };
            assert(b[i2] == k);
        }
        assert(b[at] == key);
        if b.contains(k) {
            let i = choose|i: int| 0 <= i < b.len() && b[i] == k;
            if i != at {
                let i2 = if i < at { i } else { i - 1 };
                assert(a[i2] == k);
            }
        }
    }
}

proof fn lemma_key_removed(a: Seq<u64>, at: int, key: u64)
    requires
        ascending(a),
        0 <= at < a.len(),
        a[at] == key,
    ensures
        ascending(a.remove(at)),
        forall|k: u64| #[trigger] a.remove(at).contains(k) == (a.contains(k) && k != key),
{
    let b = a.remove(at);
    assert forall|i: int| 0 <= i < b.len() implies #[trigger] b[i] == a[if i < at {
        i
    } else {
        i + 1
    }] by {}
    assert forall|k: u64| #[trigger] b.contains(k) == (a.contains(k) && k != key) by {
        if b.contains(k) {
            let i = choose|i: int| 0 <= i < b.len() && b[i] == k;
            let i2 = if i < at { i } else { i + 1 };
            assert(a[i2] == k);
            if i2 < at {
                assert(a[i2] < a[at]);
            } else {
                assert(a[at] < a[i2]);
            }
        }
        if a.contains(k) && k != key {
            let i = choose|i: int| 0 <= i < a.len() && a[i] == k;
            let i2 = if i < at { i } else { i - 1 };
            assert(b[i2] == k);
        }
    }
}

proof fn lemma_halves(a: Seq<u64>, m: int, k: u64)
    requires
        0 <= m <= a.len(),
    ensures
        a.contains(k) == (a.take(m).contains(k) || a.skip(m).contains(k)),
{
    if a.contains(k) {
        let i = choose|i: int| 0 <= i < a.len() && a[i] == k;
        if i < m {
            assert(a.take(m)[i] == k);
        } else {
            assert(a.skip(m)[i - m] == k);
        }
    }
    if a.take(m).contains(k) {
        let i = choose|i: int| 0 <= i < m && a.take(m)[i] == k;
        assert(a[i] == k);
    }
    if a.skip(m).contains(k) {
        let i = choose|i: int| 0 <= i < a.len() - m && a.skip(m)[i] == k;
        assert(a[i + m] == k);
    }
}

proof fn lemma_kid_replaced(
    keys: Seq<u64>,
    kids: Seq<Box<Node>>,
    lo: int,
    hi: int,
    c: int,
    left: Box<Node>,
)
    requires
        kids_ok(keys, kids, lo, hi),
        0 <= c < kids.len(),
        node_ok(*left, bound(keys, c, lo, hi), bound(keys, c + 1, lo, hi), MAX_KEYS as int),
    ensures
        kids_ok(keys, kids.update(c, left), lo, hi),
{
    let b = kids.update(c, left);
    assert forall|i: int| 0 <= i < b.len() implies node_ok(
        *(#[trigger] b[i]),
        bound(keys, i, lo, hi),
        bound(keys, i + 1, lo, hi),
        MAX_KEYS as int,
    ) by {
        if i != c {
            assert(b[i] == kids[i]);
        }
    }
}

proof fn lemma_kid_replaced_holds(kids: Seq<Box<Node>>, c: int, left: Box<Node>, k: u64)
    requires
        0 <= c < kids.len(),
    ensures
        holds(*left, k) ==> kids_hold(kids.update(c, left), k),
        holds(*kids[c], k) ==> kids_hold(kids, k),
        kids_hold(kids.update(c, left), k) ==> holds(*left, k) || kids_hold(kids, k),
        kids_hold(kids, k) ==> holds(*kids[c], k) || kids_hold(kids.update(c, left), k),
{
    let b = kids.update(c, left);
    if holds(*left, k) {
        assert(holds(*b[c], k));
    }
    if kids_hold(b, k) {
        let i = choose|i: int| 0 <= i < b.len() && holds(*(#[trigger] b[i]), k);
        if i != c {
            assert(holds(*kids[i], k));
        }
    }
    if kids_hold(kids, k) {
        let i = choose|i: int| 0 <= i < kids.len() && holds(*(#[trigger] kids[i]), k);
        if i != c {
            assert(holds(*b[i], k));
        }
    }
}

proof fn lemma_kid_split(
    keys: Seq<u64>,
    kids: Seq<Box<Node>>,
    lo: int,
    hi: int,
    c: int,
    promote: u64,
    left: Box<Node>,
    right: Box<Node>,
)
    requires
        kids_ok(keys, kids, lo, hi),
        0 <= c < kids.len(),
        bound(keys, c, lo, hi) < promote < bound(keys, c + 1, lo, hi),
        node_ok(*left, bound(keys, c, lo, hi), promote as int, MAX_KEYS as int),
        node_ok(*right, promote as int, bound(keys, c + 1, lo, hi), MAX_KEYS as int),
    ensures
        kids_ok(keys.insert(c, promote), kids.update(c, left).insert(c + 1, right), lo, hi),
{
    let ks = keys.insert(c, promote);
    let b = kids.update(c, left).insert(c + 1, right);
    assert forall|i: int, j: int| 0 <= i < j < ks.len() implies #[trigger] ks[i] < #[trigger] ks[j] by {
        let i2 = if i < c { i } else { i - 1 };
        let j2 = if j < c { j } else { j - 1 };
        if i != c {
            assert(ks[i] == keys[i2]);
        }
        if j != c {
            assert(ks[j] == keys[j2]);
        }
        if j == c && i < c - 1 {
            assert(keys[i] < keys[c - 1]);
        }
        if i == c && j2 > c {
            assert(keys[c] < keys[j2]);
        }
    }
    assert forall|i: int| 0 <= i < ks.len() implies lo <= #[trigger] ks[i] < hi by {
        if i != c {
            assert(ks[i] == keys[if i < c {
                i
            } else {
                i - 1
            }]);
        }
    }
    assert forall|i: int| 0 <= i < b.len() implies node_ok(
        *(#[trigger] b[i]),
        bound(ks, i, lo, hi),
        bound(ks, i + 1, lo, hi),
        MAX_KEYS as int,
    ) by {
        if i < c {
            assert(b[i] == kids[i]);
            assert(bound(ks, i, lo, hi) == bound(keys, i, lo, hi));
            assert(bound(ks, i + 1, lo, hi) == bound(keys, i + 1, lo, hi));
        } else if i == c {
            assert(bound(ks, i, lo, hi) == bound(keys, i, lo, hi));
            assert(bound(ks, i + 1, lo, hi) == promote);
        } else if i == c + 1 {
            assert(bound(ks, i, lo, hi) == promote);
            assert(bound(ks, i + 1, lo, hi) == bound(keys, c + 1, lo, hi));
        } else {
            assert(b[i] == kids[i - 1]);
            assert(bound(ks, i, lo, hi) == bound(keys, i - 1, lo, hi));
            assert(bound(ks, i + 1, lo, hi) == bound(keys, i, lo, hi));
        }
    }
}

proof fn lemma_kid_split_holds(
    kids: Seq<Box<Node>>,
    c: int,
    left: Box<Node>,
    right: Box<Node>,
    k: u64,
)
    requires
        0 <= c < kids.len(),
    ensures
        ({
            let b = kids.update(c, left).insert(c + 1, right);
            &&& holds(*left, k) || holds(*right, k) ==> kids_hold(b, k)
            &&& kids_hold(b, k) ==> holds(*left, k) || holds(*right, k) || kids_hold(kids, k)
            &&& kids_hold(kids, k) ==> holds(*kids[c], k) || kids_hold(b, k)
            &&& holds(*kids[c], k) ==> kids_hold(kids, k)
        }),
{
    let b = kids.update(c, left).insert(c + 1, right);
    if holds(*left, k) {
        assert(holds(*b[c], k));
    }
    if holds(*right, k) {
        assert(holds(*b[c + 1], k));
    }
    if kids_hold(b, k) {
        let i = choose|i: int| 0 <= i < b.len() && holds(*(#[trigger] b[i]), k);
        if i < c {
            assert(holds(*kids[i], k));
        } else if i > c + 1 {
            assert(holds(*kids[i - 1], k));
        }
    }
    if kids_hold(kids, k) {
        let i = choose|i: int| 0 <= i < kids.len() && holds(*(#[trigger] kids[i]), k);
        if i < c {
            assert(holds(*b[i], k));
        } else if i > c {
            assert(holds(*b[i + 1], k));
        }
    }
}

proof fn lemma_kids_halved(keys: Seq<u64>, kids: Seq<Box<Node>>, lo: int, hi: int, m: int)
    requires
        kids_ok(keys, kids, lo, hi),
        0 <= m < keys.len(),
    ensures
        kids_ok(keys.take(m), kids.take(m + 1), lo, keys[m] as int),
        kids_ok(keys.skip(m + 1), kids.skip(m + 1), keys[m] as int, hi),
{
    let k1 = keys.take(m);
    let c1 = kids.take(m + 1);
    let k2 = keys.skip(m + 1);
    let c2 = kids.skip(m + 1);
    let p = keys[m] as int;
    assert forall|i: int| 0 <= i < k1.len() implies lo <= #[trigger] k1[i] < p by {
        assert(keys[i] < keys[m]);
    }
    assert forall|i: int| 0 <= i < k2.len() implies p <= #[trigger] k2[i] < hi by {
        assert(keys[m] < keys[i + m + 1]);
    }
    assert forall|i: int| 0 <= i < c1.len() implies node_ok(
        *(#[trigger] c1[i]),
        bound(k1, i, lo, p),
        bound(k1, i + 1, lo, p),
        MAX_KEYS as int,
    ) by {
        assert(c1[i] == kids[i]);
        assert(bound(k1, i, lo, p) == bound(keys, i, lo, hi));
        assert(bound(k1, i + 1, lo, p) == bound(keys, i + 1, lo, hi));
    }
    assert forall|i: int| 0 <= i < c2.len() implies node_ok(
        *(#[trigger] c2[i]),
        bound(k2, i, p, hi),
        bound(k2, i + 1, p, hi),
        MAX_KEYS as int,
    ) by {
        assert(c2[i] == kids[i + m + 1]);
        assert(bound(k2, i, p, hi) == bound(keys, i + m + 1, lo, hi));
        assert(bound(k2, i + 1, p, hi) == bound(keys, i + m + 2, lo, hi));
    }
}

proof fn lemma_kids_halved_hold(kids: Seq<Box<Node>>, m: int, k: u64)
    requires
        0 <= m <= kids.len(),
    ensures
        kids_hold(kids, k) == (kids_hold(kids.take(m), k) || kids_hold(kids.skip(m), k)),
{
    let a = kids.take(m);
    let b = kids.skip(m);
    if kids_hold(kids, k) {
        let i = choose|i: int| 0 <= i < kids.len() && holds(*(#[trigger] kids[i]), k);
        if i < m {
            assert(holds(*a[i], k));
        } else {
            assert(holds(*b[i - m], k));
        }
    }
    if kids_hold(a, k) {
        let i = choose|i: int| 0 <= i < a.len() && holds(*(#[trigger] a[i]), k);
        assert(holds(*kids[i], k));
    }
    if kids_hold(b, k) {
        let i = choose|i: int| 0 <= i < b.len() && holds(*(#[trigger] b[i]), k);
        assert(holds(*kids[i + m], k));
    }
}

/// Bound above every id.
pub open spec fn id_top() -> int {
    u64::MAX + 1
}

impl View for BPlusTree {
    type V = Set<u64>;

    open spec fn view(&self) -> Set<u64> {
        Set::new(|k: u64| holds(self.root, k))
    }
}

impl BPlusTree {
    pub open spec fn wf(&self) -> bool {
        node_ok(self.root, 0, id_top(), MAX_KEYS as int)
    }

    /// A tree without ids.
    pub fn new() -> (r: BPlusTree)
        ensures
            r.wf(),
            r@ == Set::<u64>::empty(),
    {
        let keys: Vec<PageId> = Vec::new();
        let r = BPlusTree { root: Node::Leaf { keys } };
        assert(r@ =~= Set::<u64>::empty());
        r
    }

    /// Whether an id is in the tree.
    pub fn contains(&self, key: PageId) -> (r: bool)
        requires
            self.wf(),
        ensures
            r == self@.contains(key),
    {
        self.root.contains(key)
    }

    /// Puts an id into the tree.
    pub fn insert(&mut self, key: PageId)
        requires
            old(self).wf(),
        ensures
            final(self).wf(),
            final(self)@ == old(self)@.insert(key),
    {
        let top = Ghost(id_top());
        let over = self.root.insert(key, Ghost(0int), top);
        let ghost grown = self.root;
        if over {
            let (promote, right) = self.root.split(Ghost(0int), top);
            let ghost r0 = right;
            let empty: Vec<PageId> = Vec::new();
            let mut left = Node::Leaf { keys: empty };
            std::mem::swap(&mut left, &mut self.root);
            let ghost l0 = left;
            let mut keys: Vec<PageId> = Vec::new();
            keys.push(promote);
            let mut children: Vec<Box<Node>> = Vec::new();
            children.push(Box::new(left));
            children.push(right);
            proof {
                let ks = keys@;
                let cs = children@;
                assert(bound(ks, 1, 0, id_top()) == promote);
                assert(*cs[0] == l0 && *cs[1] == *r0);
                assert(kids_ok(ks, cs, 0, id_top()));
                assert forall|k: u64| #[trigger] kids_hold(cs, k) == holds(grown, k) by {
                    if holds(l0, k) {
                        assert(holds(*cs[0], k));
                    }
                    if holds(*r0, k) {
                        assert(holds(*cs[1], k));
                    }
                }
            }
            let ghost cs = children@;
            self.root = Node::Internal { keys, children };
            proof {
                lemma_holds(self.root);
                assert(self.root->children@ == cs);
            }
            assert(node_ok(self.root, 0, id_top(), MAX_KEYS as int));
        }
        assert(self@ =~= old(self)@.insert(key));
    }

    /// Takes an id out of the tree.
    pub fn remove(&mut self, key: PageId)
        requires
            old(self).wf(),
        ensures
            final(self).wf(),
            final(self)@ == old(self)@.remove(key),
    {
        self.root.remove(key, Ghost(0int), Ghost(id_top()));
        assert(self@ =~= old(self)@.remove(key));
    }
}

impl Default for BPlusTree {
    fn default() -> (r: BPlusTree)
        ensures
            r.wf(),
            r@ == Set::<u64>::empty(),
    {
        BPlusTree::new()
    }
}

} // verus!
