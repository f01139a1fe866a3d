//! Checking that linked pages form a tree with its leaves in one chain.
use vstd::prelude::*;
use vstd::string::*;

use super::chain::sized;
use super::node_page::{collect_entries, count_of, decode_child_id, entries_view, entry_inside,
    node_of, page_header, val_of, value_size_of, Entry, PageHeader,
    PAGE_TYPE_INTERNAL, PAGE_TYPE_LEAF};
use super::provider::AsyncPageProvider;
use super::tree::PageBPlusTree;
use super::tree_model::Entries;
use crate::common::{bytes_view, page_bytes, Page, PageId, PAGE_SIZE};
use crate::key_order::{bytes_lt, lex_lt};
use crate::layout::{bytes_eq, copy_bytes, u64_at};
use crate::text::{dec, hex_string, hex_text, join2, join_num, text_num2};
use std::collections::BTreeSet;

verus! {

broadcast use vstd::std_specs::btree::group_btree_axioms;

/// A page that is to be visited, with the limits that its keys must keep.
pub struct Frame {
    pub id: PageId,
    pub lower: Option<Seq<u8>>,
    pub upper: Option<Seq<u8>>,
}

/// The first entry from `i` on that leaves the page, or their number.
pub open spec fn readable_from(s: Seq<u8>, i: int) -> int
    decreases count_of(s) - i,
{
    if i >= count_of(s) || !entry_inside(s, i) {
        i
    } else {
        readable_from(s, i + 1)
    }
}

/// The entries of a page, up to the first that leaves it. A page whose offset
/// table does not fit has none.
pub open spec fn listed(s: Seq<u8>) -> Entries {
    node_of(s).entries.take(readable_from(s, 0))
}

/// A key is not above the one before it.
pub open spec fn unordered(e: Entries) -> bool {
    exists|i: int| 0 < i < e.len() && !lex_lt(e[i - 1].0, (#[trigger] e[i]).0)
}

/// The first key is below the limit.
pub open spec fn starts_below(e: Entries, lower: Option<Seq<u8>>) -> bool {
    lower matches Some(lo) && e.len() > 0 && lex_lt(e[0].0, lo)
}

/// The last key is not below the limit.
pub open spec fn ends_above(e: Entries, upper: Option<Seq<u8>>) -> bool {
    upper matches Some(hi) && e.len() > 0 && !lex_lt(e.last().0, hi)
}

/// What is wrong with a page by itself and its limits.
pub open spec fn page_fault(m: Map<PageId, Seq<u8>>, f: Frame) -> Option<Seq<char>> {
    let id = dec(f.id as int);
    if !m.contains_key(f.id) {
        Some("missing page_id="@ + id)
    } else {
        let h = node_of(m[f.id]);
        let e = listed(m[f.id]);
        if unordered(e) {
            Some("non-ascending keys in page_id="@ + id)
        } else if starts_below(e, f.lower) {
            Some("page_id="@ + id + " violates lower bound"@)
        } else if ends_above(e, f.upper) {
            Some("page_id="@ + id + " violates upper bound"@)
        } else if h.page_type == PAGE_TYPE_LEAF {
            if ends_above(e, h.high_key) {
                Some("leaf page_id="@ + id + " key >= high_key"@)
            } else {
                None
            }
        } else if h.page_type != PAGE_TYPE_INTERNAL {
            Some("unknown page type "@ + dec(h.page_type as int) + " at page_id="@ + id)
        } else if h.left_child == 0 && e.len() > 0 {
            Some("internal page_id="@ + id + " has zero left child"@)
        } else {
            None
        }
    }
}

/// The child of an internal page at place `i`, with the limits that the
/// separators beside it set.
pub open spec fn child_frame(left: PageId, e: Entries, f: Frame, i: int) -> Frame {
    Frame {
        id: if i <= 0 {
            left
        } else {
            u64_at(e[i - 1].1, 0) as PageId
        },
        lower: if i <= 0 {
            f.lower
        } else {
            Some(e[i - 1].0)
        },
        upper: if i >= e.len() {
            f.upper
        } else {
            Some(e[i].0)
        },
    }
}

/// The children of a page, from left to right.
pub open spec fn child_frames(m: Map<PageId, Seq<u8>>, f: Frame) -> Seq<Frame> {
    let h = node_of(m[f.id]);
    let e = listed(m[f.id]);
    if h.page_type == PAGE_TYPE_LEAF {
        seq![]
    } else {
        Seq::new((e.len() + 1) as nat, |i: int| child_frame(h.left_child, e, f, i))
    }
}

/// The pages that are still to be visited after `n` visits, the next one last.
/// A page's children are visited before the pages to its right.
#[verifier::opaque]
pub open spec fn waiting(m: Map<PageId, Seq<u8>>, root: PageId, n: int) -> Seq<Frame>
    decreases n,
{
    if n <= 0 {
        seq![Frame { id: root, lower: None, upper: None }]
    } else {
        let s = waiting(m, root, n - 1);
        if s.len() == 0 {
            s
        } else {
            s.drop_last() + child_frames(m, s.last()).reverse()
        }
    }
}

/// Visit `n`, counted from zero.
pub open spec fn visit(m: Map<PageId, Seq<u8>>, root: PageId, n: int) -> Frame {
    waiting(m, root, n).last()
}

/// Page `x` is among the first `n` visits.
pub open spec fn visited(m: Map<PageId, Seq<u8>>, root: PageId, n: int, x: PageId) -> bool {
    exists|j: int| 0 <= j < n && (#[trigger] visit(m, root, j)).id == x
}

/// What visit `n` finds wrong.
pub open spec fn visit_fault(m: Map<PageId, Seq<u8>>, root: PageId, n: int) -> Option<Seq<char>> {
    let f = visit(m, root, n);
    if visited(m, root, n, f.id) {
        Some("cycle detected at page_id="@ + dec(f.id as int))
    } else {
        page_fault(m, f)
    }
}

/// The first `n` visits find nothing wrong.
#[verifier::opaque]
pub open spec fn sound_until(m: Map<PageId, Seq<u8>>, root: PageId, n: int) -> bool {
    forall|j: int|
        0 <= j < n ==> #[trigger] waiting(m, root, j).len() > 0 && visit_fault(m, root, j) is None
}

/// `n` visits reach all pages of the tree, and nothing is wrong with them.
pub open spec fn explored(m: Map<PageId, Seq<u8>>, root: PageId, n: int) -> bool {
    0 <= n && sound_until(m, root, n) && waiting(m, root, n).len() == 0
}

/// Visit `n` is the first that finds something wrong, described by `text`.
pub open spec fn visit_fails(
    m: Map<PageId, Seq<u8>>,
    root: PageId,
    n: int,
    text: Seq<char>,
) -> bool {
    &&& 0 <= n
    &&& sound_until(m, root, n)
    &&& waiting(m, root, n).len() > 0
    &&& visit_fault(m, root, n) == Some(text)
}

/// The page is a leaf.
pub open spec fn is_leaf(m: Map<PageId, Seq<u8>>, x: PageId) -> bool {
    node_of(m[x]).page_type == PAGE_TYPE_LEAF
}

/// The leaves among the first `n` visits.
pub open spec fn leaves_of(m: Map<PageId, Seq<u8>>, root: PageId, n: int) -> Set<PageId> {
    Set::new(|x: PageId| visited(m, root, n, x) && is_leaf(m, x))
}

/// Visit `i` is the first of a leaf.
pub open spec fn first_leaf_visit(m: Map<PageId, Seq<u8>>, root: PageId, i: int) -> bool {
    &&& 0 <= i
    &&& is_leaf(m, visit(m, root, i).id)
    &&& forall|j: int| 0 <= j < i ==> !is_leaf(m, (#[trigger] visit(m, root, j)).id)
}

/// The page that `n` steps along the leaf chain lead to.
#[verifier::opaque]
pub open spec fn chain_page(m: Map<PageId, Seq<u8>>, start: PageId, n: int) -> Option<PageId>
    decreases n,
{
    if n <= 0 {
        Some(start)
    } else {
        match chain_page(m, start, n - 1) {
            Some(p) => node_of(m[p]).next_leaf,
            None => None,
        }
    }
}

/// Page `x` is among the first `n` pages of the chain.
pub open spec fn chained(m: Map<PageId, Seq<u8>>, start: PageId, n: int, x: PageId) -> bool {
    exists|j: int| 0 <= j < n && #[trigger] chain_page(m, start, j) == Some(x)
}

/// The last key in the first `n` pages of the chain.
#[verifier::opaque]
pub open spec fn last_key(m: Map<PageId, Seq<u8>>, start: PageId, n: int) -> Option<Seq<u8>>
    decreases n,
{
    if n <= 0 {
        None
    } else {
        let e = listed(m[chain_page(m, start, n - 1)->0]);
        if e.len() > 0 {
            Some(e.last().0)
        } else {
            last_key(m, start, n - 1)
        }
    }
}

/// What is wrong with the link from leaf `p` to the next one.
pub open spec fn link_fault(m: Map<PageId, Seq<u8>>, p: PageId) -> Option<Seq<char>> {
    let h = node_of(m[p]);
    match h.next_leaf {
        None => None,
        Some(next) => match h.high_key {
            None => Some("missing high_key at page_id="@ + dec(p as int)),
            Some(hk) => if !m.contains_key(next) {
                Some("missing next leaf page_id="@ + dec(next as int))
            } else {
                let e = listed(m[next]);
                if e.len() > 0 && hk != e[0].0 {
                    Some(
                        "high_key mismatch at page_id="@ + dec(p as int) + ": hk="@ + hex_text(hk)
                            + " next_first="@ + hex_text(e[0].0),
                    )
                } else {
                    None
                }
            },
        },
    }
}

/// What is wrong with page `n` of the chain, among `leaves` leaves.
pub open spec fn chain_fault(
    m: Map<PageId, Seq<u8>>,
    start: PageId,
    leaves: int,
    n: int,
) -> Option<Seq<char>> {
    let p = chain_page(m, start, n)->0;
    if n > leaves {
        Some("leaf chain exceeded expected length"@)
    } else if chained(m, start, n, p) {
        Some("leaf chain cycle at page_id="@ + dec(p as int))
    } else if !m.contains_key(p) {
        Some("missing page_id="@ + dec(p as int))
    } else if starts_below(listed(m[p]), last_key(m, start, n)) {
        Some("leaf chain out of order at page_id="@ + dec(p as int))
    } else {
        link_fault(m, p)
    }
}

/// The first `n` pages of the chain have nothing wrong.
#[verifier::opaque]
pub open spec fn chain_sound_until(
    m: Map<PageId, Seq<u8>>,
    start: PageId,
    leaves: int,
    n: int,
) -> bool {
    forall|j: int|
        0 <= j < n ==> #[trigger] chain_page(m, start, j) is Some && chain_fault(
            m,
            start,
            leaves,
            j,
        ) is None
}

/// The chain ends after `n` pages, with nothing wrong, and these are `leaves`.
pub open spec fn chain_ends(
    m: Map<PageId, Seq<u8>>,
    start: PageId,
    leaves: Set<PageId>,
    n: int,
) -> bool {
    &&& 0 <= n
    &&& chain_sound_until(m, start, leaves.len() as int, n)
    &&& chain_page(m, start, n) is None
}

/// The pages of the chain are `leaves`.
pub open spec fn chain_covers(
    m: Map<PageId, Seq<u8>>,
    start: PageId,
    leaves: Set<PageId>,
    n: int,
) -> bool {
    forall|x: PageId| #[trigger] chained(m, start, n, x) <==> leaves.contains(x)
}

/// Page `n` of the chain is the first with something wrong, described by `text`.
pub open spec fn chain_fails(
    m: Map<PageId, Seq<u8>>,
    start: PageId,
    leaves: Set<PageId>,
    n: int,
    text: Seq<char>,
) -> bool {
    &&& 0 <= n
    &&& chain_sound_until(m, start, leaves.len() as int, n)
    &&& chain_page(m, start, n) is Some
    &&& chain_fault(m, start, leaves.len() as int, n) == Some(text)
}

/// The tree is found in order after `n` visits, the first leaf at visit `i` and
/// `c` leaves in the chain.
pub open spec fn valid_tree(m: Map<PageId, Seq<u8>>, root: PageId, n: int, i: int, c: int) -> bool {
    let start = visit(m, root, i).id;
    let leaves = leaves_of(m, root, n);
    &&& explored(m, root, n)
    &&& i < n
    &&& first_leaf_visit(m, root, i)
    &&& chain_ends(m, start, leaves, c)
    &&& chain_covers(m, start, leaves, c)
}

/// The pages are in order but the chain of leaves is not, as `text` says.
pub open spec fn invalid_chain(
    m: Map<PageId, Seq<u8>>,
    root: PageId,
    n: int,
    i: int,
    c: int,
    text: Seq<char>,
) -> bool {
    let start = visit(m, root, i).id;
    let leaves = leaves_of(m, root, n);
    &&& explored(m, root, n)
    &&& i < n
    &&& first_leaf_visit(m, root, i)
    &&& ({
        ||| chain_fails(m, start, leaves, c, text)
        ||| chain_ends(m, start, leaves, c) && !chain_covers(m, start, leaves, c) && text
            == "leaf chain does not match discovered leaves"@
    })
}

/// The pages under the root form a tree whose leaves are in one chain.
pub open spec fn is_valid(m: Map<PageId, Seq<u8>>, root: PageId) -> bool {
    exists|n: int, i: int, c: int| #[trigger] valid_tree(m, root, n, i, c)
}

/// The pages under the root form no such tree, as `text` says.
pub open spec fn is_invalid(m: Map<PageId, Seq<u8>>, root: PageId, text: Seq<char>) -> bool {
    ||| (exists|n: int| #[trigger] visit_fails(m, root, n, text))
    ||| (exists|n: int, i: int, c: int| #[trigger] invalid_chain(m, root, n, i, c, text))
}

pub proof fn lemma_readable(s: Seq<u8>, i: int, n: int)
    requires
        0 <= i <= n <= count_of(s),
        forall|j: int| i <= j < n ==> #[trigger] entry_inside(s, j),
        n < count_of(s) ==> !entry_inside(s, n),
    ensures
        readable_from(s, i) == n,
    decreases n - i,
{
    if i < n {
        assert(entry_inside(s, i));
        lemma_readable(s, i + 1, n);
    }
}

/// The entries of a page.
fn read_entries(page: &Page) -> (r: Vec<Entry>)
    requires
        bytes_view(*page).len() == PAGE_SIZE,
    ensures
        entries_view(r@) == listed(bytes_view(*page)),
        forall|i: int|
            0 <= i < r@.len() ==> (#[trigger] r@[i]).1@.len() == value_size_of(
                bytes_view(*page)[0],
            ),
{
    let bytes = page_bytes(page);
    let r = collect_entries(bytes);
    proof {
        lemma_readable(bytes@, 0, r@.len() as int);
        assert forall|i: int| 0 <= i < r@.len() implies (#[trigger] r@[i]).1@.len()
            == value_size_of(bytes@[0]) by {
            assert(entry_inside(bytes@, i));
            assert(entries_view(r@)[i] == node_of(bytes@).entries[i]);
            assert(r@[i].1@ == val_of(bytes@, i));
        }
    }
    r
}

/// A page that is to be visited.
struct ValidateFrame {
    page_id: PageId,
    lower: Option<Vec<u8>>,
    upper: Option<Vec<u8>>,
}

spec fn key_view(k: Option<Vec<u8>>) -> Option<Seq<u8>> {
    match k {
        Some(v) => Some(v@),
        None => None,
    }
}

impl ValidateFrame {
    spec fn frame(self) -> Frame {
        Frame { id: self.page_id, lower: key_view(self.lower), upper: key_view(self.upper) }
    }
}

spec fn frames(v: Seq<ValidateFrame>) -> Seq<Frame> {
    v.map_values(|f: ValidateFrame| f.frame())
}

fn copy_key(k: &Option<Vec<u8>>) -> (r: Option<Vec<u8>>)
    ensures
        key_view(r) == key_view(*k),
{
    match k {
        Some(v) => Some(copy_bytes(v.as_slice())),
        None => None,
    }
}

fn text_around(a: &str, n: u64, b: &str) -> (r: String)
    ensures
        r@ == a@ + dec(n as int) + b@,
{
    join2(join_num(a, n).as_str(), b)
}

fn is_unordered(e: &Vec<Entry>) -> (r: bool)
    ensures
        r == unordered(entries_view(e@)),
{
    let ghost v = entries_view(e@);
    let n: usize = e.len();
    let mut i: usize = 1;
    while i < n
        invariant
            n == e@.len(),
            v == entries_view(e@),
            1 <= i,
            i <= n || n == 0,
            forall|j: int| 0 < j < i && j < n ==> lex_lt(v[j - 1].0, (#[trigger] v[j]).0),
        decreases n - i,
    {
        if !bytes_lt(e[i - 1].0.as_slice(), e[i].0.as_slice()) {
            assert(!lex_lt(v[i - 1].0, v[i as int].0));
            return true;
        }
        assert(lex_lt(v[i - 1].0, v[i as int].0));
        i += 1;
    }
    false
}

fn starts_below_key(e: &Vec<Entry>, lower: Option<&[u8]>) -> (r: bool)
    ensures
        r == starts_below(
            entries_view(e@),
            match lower {
                Some(k) => Some(k@),
                None => None,
            },
        ),
{
    match lower {
        Some(lo) => e.len() > 0 && bytes_lt(e[0].0.as_slice(), lo),
        None => false,
    }
}

fn ends_above_key(e: &Vec<Entry>, upper: Option<&[u8]>) -> (r: bool)
    ensures
        r == ends_above(
            entries_view(e@),
            match upper {
                Some(k) => Some(k@),
                None => None,
            },
        ),
{
    match upper {
        Some(hi) => e.len() > 0 && !bytes_lt(e[e.len() - 1].0.as_slice(), hi),
        None => false,
    }
}

fn slice_of(k: &Option<Vec<u8>>) -> (r: Option<&[u8]>)
    ensures
        (match r {
            Some(x) => Some(x@),
            None => None,
        }) == key_view(*k),
{
    match k {
        Some(v) => Some(v.as_slice()),
        None => None,
    }
}

/// Checks a page that is there.
fn check_page(f: &ValidateFrame, header: &PageHeader, e: &Vec<Entry>, Ghost(m): Ghost<
    Map<PageId, Seq<u8>>,
>) -> (r: std::result::Result<(), String>)
    requires
        m.contains_key(f.page_id),
        header.describes(node_of(m[f.page_id])),
        entries_view(e@) == listed(m[f.page_id]),
    ensures
        match r {
            Ok(()) => page_fault(m, f.frame()) is None,
            Err(t) => page_fault(m, f.frame()) == Some(t@),
        },
{
    let id: u64 = f.page_id;
    if is_unordered(e) {
        return Err(join_num("non-ascending keys in page_id=", id));
    }
    if starts_below_key(e, slice_of(&f.lower)) {
        return Err(text_around("page_id=", id, " violates lower bound"));
    }
    if ends_above_key(e, slice_of(&f.upper)) {
        return Err(text_around("page_id=", id, " violates upper bound"));
    }
    if header.page_type == PAGE_TYPE_LEAF {
        let high: Option<&[u8]> = match &header.high_key {
            Some(k) => Some(k.as_slice()),
            None => None,
        };
        if ends_above_key(e, high) {
            return Err(text_around("leaf page_id=", id, " key >= high_key"));
        }
        return Ok(());
    }
    if header.page_type != PAGE_TYPE_INTERNAL {
        return Err(
            text_num2("unknown page type ", header.page_type as u64, " at page_id=", id),
        );
    }
    if header.left_child == 0 && e.len() > 0 {
        return Err(text_around("internal page_id=", id, " has zero left child"));
    }
    Ok(())
}

/// Puts the children of an internal page on the stack, the leftmost on top.
fn push_children(
    stack: &mut Vec<ValidateFrame>,
    f: &ValidateFrame,
    left_child: PageId,
    e: &Vec<Entry>,
)
    requires
        forall|i: int| 0 <= i < e@.len() ==> (#[trigger] e@[i]).1@.len() >= 8,
    ensures
        frames(final(stack)@) == frames(old(stack)@) + Seq::new(
            (e@.len() + 1) as nat,
            |i: int| child_frame(left_child, entries_view(e@), f.frame(), i),
        ).reverse(),
{
    let n: usize = e.len();
    let ghost v = entries_view(e@);
    let ghost kids = Seq::new(
        (e@.len() + 1) as nat,
        |i: int| child_frame(left_child, v, f.frame(), i),
    );
    let ghost all = kids.reverse();
    let ghost base = frames(stack@);
    let mut i: usize = n;
    let mut done: bool = false;
    assert(all.take(0) =~= Seq::<Frame>::empty());
    assert(base + all.take(0) =~= base);
    while !done
        invariant
            n == e@.len(),
            v == entries_view(e@),
            i <= n,
            kids.len() == n + 1,
            forall|j: int|
                0 <= j < kids.len() ==> #[trigger] kids[j] == child_frame(
                    left_child,
                    v,
                    f.frame(),
                    j,
                ),
            all == kids.reverse(),
            forall|j: int| 0 <= j < e@.len() ==> (#[trigger] e@[j]).1@.len() >= 8,
            done ==> frames(stack@) == base + all,
            !done ==> frames(stack@) == base + all.take(n - i),
        decreases i + (if done {
                0int
            } else {
                1int
            }),
    {
        let child: PageId = if i == 0 {
            left_child
        } else {
            decode_child_id(e[i - 1].1.as_slice())
        };
        let lower: Option<Vec<u8>> = if i == 0 {
            copy_key(&f.lower)
        } else {
            Some(copy_bytes(e[i - 1].0.as_slice()))
        };
        let upper: Option<Vec<u8>> = if i == n {
            copy_key(&f.upper)
        } else {
            Some(copy_bytes(e[i].0.as_slice()))
        };
        let g = ValidateFrame { page_id: child, lower, upper };
        let ghost before = stack@;
        proof {
            assert(g.frame() == kids[i as int]);
            assert(all[n - i] == kids[i as int]);
        }
        stack.push(g);
        proof {
            assert(frames(stack@) =~= frames(before).push(g.frame()));
            assert(all.take(n - i + 1) =~= all.take(n - i).push(all[n - i]));
            assert(frames(stack@) =~= base + all.take(n - i + 1));
        }
        if i == 0 {
            done = true;
            assert(all.take(n + 1) =~= all);
        } else {
            i -= 1;
        }
    }
}

/// Sets of page ids are finite.
proof fn lemma_few_ids(s: Set<PageId>)
    requires
        s.finite(),
    ensures
        s.len() <= 0x1_0000_0000_0000_0000,
{
    let top: int = 0x1_0000_0000_0000_0000;
    let ints = vstd::set_lib::set_int_range(0, top);
    vstd::set_lib::lemma_int_range(0, top);
    let img = s.map(|x: PageId| x as int);
    assert forall|x: PageId, y: PageId|
        #[trigger] s.contains(x) && #[trigger] s.contains(y) && x as int == y as int implies x
        == y by {}
    vstd::set_lib::lemma_map_size(s, img, |x: PageId| x as int);
    assert forall|i: int| #[trigger] img.contains(i) implies ints.contains(i) by {
        let x = choose|x: PageId| s.contains(x) && i == x as int;
    }
    vstd::set_lib::lemma_len_subset(img, ints);
}

proof fn lemma_waiting(m: Map<PageId, Seq<u8>>, root: PageId, n: int)
    requires
        0 <= n,
    ensures
        waiting(m, root, 0) == seq![Frame { id: root, lower: None, upper: None }],
        waiting(m, root, n).len() > 0 ==> waiting(m, root, n + 1) == waiting(
            m,
            root,
            n,
        ).drop_last() + child_frames(m, waiting(m, root, n).last()).reverse(),
{
    reveal_with_fuel(waiting, 1);
}

/// One more visit.
proof fn lemma_visit(m: Map<PageId, Seq<u8>>, root: PageId, n: int)
    requires
        0 <= n,
    ensures
        forall|x: PageId| #[trigger]
            visited(m, root, n + 1, x) <==> visited(m, root, n, x) || x == visit(m, root, n).id,
        sound_until(m, root, n) && waiting(m, root, n).len() > 0 && visit_fault(m, root, n) is None
            ==> sound_until(m, root, n + 1),
{
    reveal(sound_until);
    assert forall|x: PageId| #[trigger] visited(m, root, n + 1, x) implies visited(m, root, n, x)
        || x == visit(m, root, n).id by {
        let j = choose|j: int| 0 <= j < n + 1 && (#[trigger] visit(m, root, j)).id == x;
        if j < n {
            assert(visit(m, root, j).id == x);
        }
    }
    assert forall|x: PageId|
        visited(m, root, n, x) || x == visit(m, root, n).id implies #[trigger] visited(
        m,
        root,
        n + 1,
        x,
    ) by {
        if visited(m, root, n, x) {
            let j = choose|j: int| 0 <= j < n && (#[trigger] visit(m, root, j)).id == x;
            assert(visit(m, root, j).id == x);
        } else {
            assert(visit(m, root, n).id == x);
        }
    }
    if sound_until(m, root, n) && waiting(m, root, n).len() > 0 && visit_fault(m, root, n) is None {
        assert forall|j: int| 0 <= j < n + 1 implies #[trigger] waiting(m, root, j).len() > 0
            && visit_fault(m, root, j) is None by {
            if j == n {
                assert(waiting(m, root, n).len() > 0);
            }
        }
    }
}

impl<P: AsyncPageProvider> PageBPlusTree<P> {
    /// Visits all pages of the tree; gives the leaves and the number of visits.
    fn explore(&self) -> (r: (std::result::Result<BTreeSet<u64>, String>, Ghost<int>))
        requires
            sized(self.provider.pages()),
        ensures
            ({
                let m = self.provider.pages();
                let root = self.provider.root();
                match r.0 {
                    Ok(leaves) => explored(m, root, r.1@) && leaves@ == leaves_of(m, root, r.1@)
                        && leaves@.finite(),
                    Err(text) => visit_fails(m, root, r.1@, text@),
                }
            }),
    {
        let ghost m = self.provider.pages();
        let root: PageId = self.provider.root_page_id();
        let mut stack: Vec<ValidateFrame> = Vec::new();
        stack.push(ValidateFrame { page_id: root, lower: None, upper: None });
        let mut seen: BTreeSet<u64> = BTreeSet::new();
        let mut leaves: BTreeSet<u64> = BTreeSet::new();
        let ghost mut n: int = 0;
        proof {
            lemma_waiting(m, root, 0);
            reveal(sound_until);
            assert(frames(stack@) =~= waiting(m, root, 0));
            assert(leaves@ =~= leaves_of(m, root, 0));
        }
        loop
            invariant
                m == self.provider.pages(),
                root == self.provider.root(),
                sized(m),
                0 <= n,
                frames(stack@) == waiting(m, root, n),
                sound_until(m, root, n),
                seen@.finite(),
                seen@.len() == n,
                n <= 0x1_0000_0000_0000_0000,
                forall|x: PageId| #[trigger] seen@.contains(x) <==> visited(m, root, n, x),
                leaves@ == leaves_of(m, root, n),
                leaves@.finite(),
            decreases 0x1_0000_0000_0000_0000 - n,
        {
            let ghost before = stack@;
            let f = match stack.pop() {
                Some(f) => f,
                None => {
                    return (Ok(leaves), Ghost(n));
                },
            };
            proof {
                assert(frames(before).last() == f.frame());
                assert(frames(stack@) =~= frames(before).drop_last());
                assert(visit(m, root, n) == f.frame());
                lemma_visit(m, root, n);
                lemma_waiting(m, root, n);
            }
            if seen.contains(&f.page_id) {
                return (Err(join_num("cycle detected at page_id=", f.page_id)), Ghost(n));
            }
            let page = match self.provider.read_page(f.page_id) {
                Some(p) => p,
                None => {
                    return (Err(join_num("missing page_id=", f.page_id)), Ghost(n));
                },
            };
            let header = page_header(page_bytes(&page));
            let e = read_entries(&page);
            match check_page(&f, &header, &e, Ghost(m)) {
                Ok(()) => {},
                Err(t) => {
                    return (Err(t), Ghost(n));
                },
            }
            let ghost old_leaves = leaves@;
            seen.insert(f.page_id);
            proof {
                lemma_few_ids(seen@);
            }
            if header.page_type == PAGE_TYPE_LEAF {
                leaves.insert(f.page_id);
                proof {
                    assert(child_frames(m, f.frame()).reverse() =~= Seq::<Frame>::empty());
                    assert(frames(stack@) =~= waiting(m, root, n + 1));
                }
            } else {
                push_children(&mut stack, &f, header.left_child, &e);
                proof {
                    assert(child_frames(m, f.frame()) =~= Seq::new(
                        (e@.len() + 1) as nat,
                        |i: int| child_frame(header.left_child, entries_view(e@), f.frame(), i),
                    ));
                    assert(frames(stack@) =~= waiting(m, root, n + 1));
                }
            }
            proof {
                assert(leaves@ =~= leaves_of(m, root, n + 1));
                n = n + 1;
            }
        }
    }

    /// The first leaf.
    fn leftmost_leaf(&self, Ghost(n): Ghost<int>) -> (r: (
        std::result::Result<PageId, String>,
        Ghost<int>,
    ))
        requires
            sized(self.provider.pages()),
            explored(self.provider.pages(), self.provider.root(), n),
        ensures
            ({
                let m = self.provider.pages();
                let root = self.provider.root();
                &&& r.0 matches Ok(id) && id == visit(m, root, r.1@).id
                &&& r.1@ < n
                &&& first_leaf_visit(m, root, r.1@)
            }),
    {
        let ghost m = self.provider.pages();
        let root: PageId = self.provider.root_page_id();
        let mut leftmost: PageId = root;
        let ghost mut i: int = 0;
        proof {
            lemma_waiting(m, root, 0);
            assert(0 < n);
        }
        loop
            invariant
                m == self.provider.pages(),
                root == self.provider.root(),
                sized(m),
                explored(m, root, n),
                0 <= i < n,
                leftmost == visit(m, root, i).id,
                forall|j: int| 0 <= j < i ==> !is_leaf(m, (#[trigger] visit(m, root, j)).id),
            decreases n - i,
        {
            proof {
                assert(waiting(m, root, i).len() > 0 && visit_fault(m, root, i) is None) by {
                    reveal(sound_until);
                }
            }
            let page = match self.provider.read_page(leftmost) {
                Some(p) => p,
                None => {
                    return (Err(join_num("missing page_id=", leftmost)), Ghost(i));
                },
            };
            let header = page_header(page_bytes(&page));
            if header.page_type == PAGE_TYPE_LEAF {
                return (Ok(leftmost), Ghost(i));
            }
            proof {
                let f = visit(m, root, i);
                let kids = child_frames(m, f);
                lemma_waiting(m, root, i);
                assert(kids.len() > 0);
                let w = waiting(m, root, i + 1);
                assert(w.last() == kids[0]);
                assert(visit(m, root, i + 1).id == header.left_child);
                assert(w.len() > 0);
                i = i + 1;
            }
            leftmost = header.left_child;
        }
    }

    /// Follows the chain of leaves.
    fn follow_chain(&self, start: PageId, leaves: &BTreeSet<u64>) -> (r: (
        std::result::Result<(), String>,
        Ghost<int>,
    ))
        requires
            sized(self.provider.pages()),
            leaves@.finite(),
        ensures
            ({
                let m = self.provider.pages();
                match r.0 {
                    Ok(()) => chain_ends(m, start, leaves@, r.1@) && chain_covers(
                        m,
                        start,
                        leaves@,
                        r.1@,
                    ),
                    Err(text) => {
                        ||| chain_fails(m, start, leaves@, r.1@, text@)
                        ||| chain_ends(m, start, leaves@, r.1@) && !chain_covers(
                            m,
                            start,
                            leaves@,
                            r.1@,
                        ) && text@ == "leaf chain does not match discovered leaves"@
                    },
                }
            }),
    {
        let ghost m = self.provider.pages();
        let count: u128 = leaves.len() as u128;
        let mut seen: BTreeSet<u64> = BTreeSet::new();
        let mut inside: bool = true;
        let mut current: Option<PageId> = Some(start);
        let mut prev: Option<Vec<u8>> = None;
        let mut n: u128 = 0;
        proof {
            lemma_chain_start(m, start);
        }
        while current.is_some()
            invariant
                m == self.provider.pages(),
                sized(m),
                leaves@.finite(),
                count == leaves@.len(),
                count <= usize::MAX,
                n <= count + 1,
                current == chain_page(m, start, n as int),
                key_view(prev) == last_key(m, start, n as int),
                chain_sound_until(m, start, count as int, n as int),
                seen@.finite(),
                seen@.len() == n,
                forall|x: PageId| #[trigger] seen@.contains(x) <==> chained(m, start, n as int, x),
                inside == seen@.subset_of(leaves@),
            decreases count + 2 - n,
        {
            let pid: PageId = current.unwrap();
            assert(chain_page(m, start, n as int)->0 == pid);
            if n > count {
                return (Err(String::from_str("leaf chain exceeded expected length")), Ghost(n as int));
            }
            if seen.contains(&pid) {
                return (Err(join_num("leaf chain cycle at page_id=", pid)), Ghost(n as int));
            }
            let page = match self.provider.read_page(pid) {
                Some(p) => p,
                None => {
                    return (Err(join_num("missing page_id=", pid)), Ghost(n as int));
                },
            };
            let header = page_header(page_bytes(&page));
            let e = read_entries(&page);
            if starts_below_key(&e, slice_of(&prev)) {
                return (
                    Err(join_num("leaf chain out of order at page_id=", pid)),
                    Ghost(n as int),
                );
            }
            match self.check_link(pid, &header) {
                Ok(()) => {},
                Err(t) => {
                    return (Err(t), Ghost(n as int));
                },
            }
            let ghost before = seen@;
            if e.len() > 0 {
                prev = Some(copy_bytes(e[e.len() - 1].0.as_slice()));
            }
            if !leaves.contains(&pid) {
                inside = false;
            }
            seen.insert(pid);
            proof {
                lemma_chain_step(m, start, count as int, n as int);
                lemma_chain_next(m, start, n as int);
                assert(entries_view(e@).len() == e@.len());
                if inside {
                    assert(seen@.subset_of(leaves@));
                } else if before.subset_of(leaves@) {
                    assert(seen@.contains(pid) && !leaves@.contains(pid));
                } else {
                    let x = choose|x: PageId| before.contains(x) && !leaves@.contains(x);
                    assert(seen@.contains(x));
                }
            }
            current = header.next_leaf;
            n += 1;
        }
        proof {
            if inside && n == count {
                vstd::set_lib::lemma_subset_equality(seen@, leaves@);
                assert(chain_covers(m, start, leaves@, n as int));
            } else if chain_covers(m, start, leaves@, n as int) {
                assert(seen@ =~= leaves@);
            }
        }
        if !inside || n != count {
            return (
                Err(String::from_str("leaf chain does not match discovered leaves")),
                Ghost(n as int),
            );
        }
        (Ok(()), Ghost(n as int))
    }

    /// Checks that the high key of a leaf is the first key of the next one.
    fn check_link(&self, pid: PageId, header: &PageHeader) -> (r: std::result::Result<(), String>)
        requires
            sized(self.provider.pages()),
            header.describes(node_of(self.provider.pages()[pid])),
        ensures
            match r {
                Ok(()) => link_fault(self.provider.pages(), pid) is None,
                Err(t) => link_fault(self.provider.pages(), pid) == Some(t@),
            },
    {
        let next: PageId = match header.next_leaf {
            Some(x) => x,
            None => {
                return Ok(());
            },
        };
        let hk = match &header.high_key {
            Some(k) => k,
            None => {
                return Err(join_num("missing high_key at page_id=", pid));
            },
        };
        let page = match self.provider.read_page(next) {
            Some(p) => p,
            None => {
                return Err(join_num("missing next leaf page_id=", next));
            },
        };
        let e = read_entries(&page);
        assert(entries_view(e@).len() == e@.len());
        if e.len() > 0 && !bytes_eq(hk.as_slice(), e[0].0.as_slice()) {
            let mut t = text_around("high_key mismatch at page_id=", pid, ": hk=");
            t.append(hex_string(hk.as_slice()).as_str());
            t.append(" next_first=");
            t.append(hex_string(e[0].0.as_slice()).as_str());
            return Err(t);
        }
        Ok(())
    }

    /// Checks that the pages under the root form a tree: each page is there and is
    /// reached once, its keys ascend and keep the limits that the separators above
    /// set, and the leaves form one chain in which each high key is the first key of
    /// the next leaf. The text of the error tells the first thing that is wrong.
    pub fn validate(&self) -> (r: std::result::Result<(), String>)
        requires
            sized(self.provider.pages()),
        ensures
            match r {
                Ok(()) => is_valid(self.provider.pages(), self.provider.root()),
                Err(text) => is_invalid(self.provider.pages(), self.provider.root(), text@),
            },
            r is Ok == is_valid(self.provider.pages(), self.provider.root()),
    {
        proof {
            assert forall|text: Seq<char>| #[trigger]
                is_invalid(self.provider.pages(), self.provider.root(), text) implies !is_valid(
                self.provider.pages(),
                self.provider.root(),
            ) by {
                law_one_verdict(self.provider.pages(), self.provider.root(), text, text);
            }
        }
        let (res, Ghost(n)) = self.explore();
        let leaves = match res {
            Ok(l) => l,
            Err(t) => {
                assert(visit_fails(self.provider.pages(), self.provider.root(), n, t@));
                return Err(t);
            },
        };
        let (first, Ghost(i)) = self.leftmost_leaf(Ghost(n));
        let start: PageId = match first {
            Ok(id) => id,
            Err(t) => {
                return Err(t);
            },
        };
        let (chain, Ghost(c)) = self.follow_chain(start, &leaves);
        match chain {
            Ok(()) => {
                assert(valid_tree(self.provider.pages(), self.provider.root(), n, i, c));
                Ok(())
            },
            Err(t) => {
                assert(invalid_chain(self.provider.pages(), self.provider.root(), n, i, c, t@));
                Err(t)
            },
        }
    }
}

proof fn lemma_chain_start(m: Map<PageId, Seq<u8>>, start: PageId)
    ensures
        chain_page(m, start, 0) == Some(start),
        last_key(m, start, 0) is None,
        forall|leaves: int| #[trigger] chain_sound_until(m, start, leaves, 0),
{
    reveal(chain_sound_until);
    reveal_with_fuel(chain_page, 1);
    reveal_with_fuel(last_key, 1);
}

proof fn lemma_chain_next(m: Map<PageId, Seq<u8>>, start: PageId, n: int)
    requires
        0 <= n,
        chain_page(m, start, n) is Some,
    ensures
        chain_page(m, start, n + 1) == node_of(m[chain_page(m, start, n)->0]).next_leaf,
        ({
            let e = listed(m[chain_page(m, start, n)->0]);
            last_key(m, start, n + 1) == (if e.len() > 0 {
                Some(e.last().0)
            } else {
                last_key(m, start, n)
            })
        }),
{
    reveal_with_fuel(chain_page, 1);
    reveal_with_fuel(last_key, 1);
}

/// One more page of the chain.
proof fn lemma_chain_step(m: Map<PageId, Seq<u8>>, start: PageId, leaves: int, n: int)
    requires
        0 <= n,
        chain_page(m, start, n) is Some,
    ensures
        forall|x: PageId| #[trigger]
            chained(m, start, n + 1, x) <==> chained(m, start, n, x) || x == chain_page(
                m,
                start,
                n,
            )->0,
        chain_sound_until(m, start, leaves, n) && chain_fault(m, start, leaves, n) is None
            ==> chain_sound_until(m, start, leaves, n + 1),
{
    reveal(chain_sound_until);
    let p = chain_page(m, start, n)->0;
    assert forall|x: PageId| #[trigger] chained(m, start, n + 1, x) implies chained(m, start, n, x)
        || x == p by {
        let j = choose|j: int| 0 <= j < n + 1 && #[trigger] chain_page(m, start, j) == Some(x);
        if j < n {
            assert(chain_page(m, start, j) == Some(x));
        }
    }
    assert forall|x: PageId| chained(m, start, n, x) || x == p implies #[trigger] chained(
        m,
        start,
        n + 1,
        x,
    ) by {
        if chained(m, start, n, x) {
            let j = choose|j: int| 0 <= j < n && #[trigger] chain_page(m, start, j) == Some(x);
            assert(chain_page(m, start, j) == Some(x));
        } else {
            assert(chain_page(m, start, n) == Some(x));
        }
    }
}

/// The pages are explored in one number of visits.
proof fn lemma_explored_once(m: Map<PageId, Seq<u8>>, root: PageId, n: int, k: int)
    requires
        explored(m, root, n),
        0 <= k,
        sound_until(m, root, k),
    ensures
        k <= n,
        waiting(m, root, k).len() == 0 ==> k == n,
        waiting(m, root, k).len() > 0 ==> visit_fault(m, root, k) is None,
{
    reveal(sound_until);
    if k > n {
        assert(waiting(m, root, n).len() > 0);
    }
    if k < n {
        assert(waiting(m, root, k).len() > 0);
    }
}

proof fn lemma_chain_once(m: Map<PageId, Seq<u8>>, start: PageId, leaves: int, c: int, d: int)
    requires
        0 <= c,
        0 <= d,
        chain_sound_until(m, start, leaves, c),
        chain_sound_until(m, start, leaves, d),
    ensures
        c < d ==> chain_page(m, start, c) is Some && chain_fault(m, start, leaves, c) is None,
        d < c ==> chain_page(m, start, d) is Some && chain_fault(m, start, leaves, d) is None,
{
    reveal(chain_sound_until);
    if c < d {
        assert(chain_page(m, start, c) is Some);
    }
    if d < c {
        assert(chain_page(m, start, d) is Some);
    }
}

proof fn lemma_first_leaf_once(m: Map<PageId, Seq<u8>>, root: PageId, i: int, j: int)
    requires
        first_leaf_visit(m, root, i),
        first_leaf_visit(m, root, j),
    ensures
        i == j,
{
    if i < j {
        assert(!is_leaf(m, visit(m, root, i).id));
    }
    if j < i {
        assert(!is_leaf(m, visit(m, root, j).id));
    }
}

proof fn lemma_same_verdict(
    m: Map<PageId, Seq<u8>>,
    root: PageId,
    n: int,
    i: int,
    c: int,
    a: Seq<char>,
    n2: int,
    i2: int,
    c2: int,
    b: Seq<char>,
)
    requires
        invalid_chain(m, root, n, i, c, a),
        invalid_chain(m, root, n2, i2, c2, b),
    ensures
        a == b,
{
    lemma_explored_once(m, root, n, n2);
    lemma_first_leaf_once(m, root, i, i2);
    lemma_chain_once(m, visit(m, root, i).id, leaves_of(m, root, n).len() as int, c, c2);
}

proof fn lemma_not_both(
    m: Map<PageId, Seq<u8>>,
    root: PageId,
    n: int,
    i: int,
    c: int,
    n2: int,
    i2: int,
    c2: int,
    b: Seq<char>,
)
    ensures
        valid_tree(m, root, n, i, c) ==> !invalid_chain(m, root, n2, i2, c2, b),
{
    if valid_tree(m, root, n, i, c) && invalid_chain(m, root, n2, i2, c2, b) {
        lemma_explored_once(m, root, n, n2);
        lemma_first_leaf_once(m, root, i, i2);
        lemma_chain_once(m, visit(m, root, i).id, leaves_of(m, root, n).len() as int, c, c2);
    }
}

/// The pages under a root are either valid or have one first thing wrong: no
/// pages are both, and no two texts describe them.
pub proof fn law_one_verdict(m: Map<PageId, Seq<u8>>, root: PageId, a: Seq<char>, b: Seq<char>)
    ensures
        !(is_valid(m, root) && is_invalid(m, root, a)),
        is_invalid(m, root, a) && is_invalid(m, root, b) ==> a == b,
{
    if is_invalid(m, root, a) && is_invalid(m, root, b) {
        if exists|n: int| #[trigger] visit_fails(m, root, n, a) {
            let n = choose|n: int| #[trigger] visit_fails(m, root, n, a);
            if exists|k: int| #[trigger] visit_fails(m, root, k, b) {
                let k = choose|k: int| #[trigger] visit_fails(m, root, k, b);
                lemma_first_fault(m, root, n, k);
            } else {
                let (k, i, c) = choose|k: int, i: int, c: int| #[trigger]
                    invalid_chain(m, root, k, i, c, b);
                lemma_explored_once(m, root, k, n);
            }
        } else {
            let (n, i, c) = choose|n: int, i: int, c: int| #[trigger]
                invalid_chain(m, root, n, i, c, a);
            if exists|k: int| #[trigger] visit_fails(m, root, k, b) {
                let k = choose|k: int| #[trigger] visit_fails(m, root, k, b);
                lemma_explored_once(m, root, n, k);
            } else {
                let (k, i2, c2) = choose|k: int, i: int, c: int| #[trigger]
                    invalid_chain(m, root, k, i, c, b);
                lemma_same_verdict(m, root, n, i, c, a, k, i2, c2, b);
            }
        }
    }
    if is_valid(m, root) && is_invalid(m, root, a) {
        let (n, i, c) = choose|n: int, i: int, c: int| #[trigger] valid_tree(m, root, n, i, c);
        if exists|k: int| #[trigger] visit_fails(m, root, k, a) {
            let k = choose|k: int| #[trigger] visit_fails(m, root, k, a);
            lemma_explored_once(m, root, n, k);
        } else {
            let (k, i2, c2) = choose|k: int, i: int, c: int| #[trigger]
                invalid_chain(m, root, k, i, c, a);
            lemma_not_both(m, root, n, i, c, k, i2, c2, a);
        }
    }
}

proof fn lemma_first_fault(m: Map<PageId, Seq<u8>>, root: PageId, n: int, k: int)
    requires
        0 <= n,
        0 <= k,
        sound_until(m, root, n),
        sound_until(m, root, k),
    ensures
        n < k ==> visit_fault(m, root, n) is None,
        k < n ==> visit_fault(m, root, k) is None,
{
    reveal(sound_until);
    if n < k {
        assert(waiting(m, root, n).len() > 0);
    }
    if k < n {
        assert(waiting(m, root, k).len() > 0);
    }
}

proof fn lemma_ordered(e: Entries, i: int, j: int)
    requires
        !unordered(e),
        0 <= i < j < e.len(),
    ensures
        lex_lt(e[i].0, e[j].0),
    decreases j - i,
{
    if i + 1 < j {
        lemma_ordered(e, i, j - 1);
        assert(lex_lt(e[j - 1].0, e[j].0)) by {
            assert(e[j].0 == e[j].0);
        }
        crate::key_order::lemma_lex_transitive(e[i].0, e[j - 1].0, e[j].0);
    } else {
        assert(lex_lt(e[j - 1].0, e[j].0));
    }
}

/// A page in which nothing is wrong is there, and is a leaf or an internal page; its keys
/// are in ascending order, none below the lower limit and all below the upper one; and no
/// key of a leaf reaches its high key.
pub proof fn law_page_without_fault(m: Map<PageId, Seq<u8>>, f: Frame)
    requires
        page_fault(m, f) is None,
    ensures
        m.contains_key(f.id),
        m[f.id][0] == 1 || m[f.id][0] == 2,
        ({
            let e = listed(m[f.id]);
            &&& forall|i: int, j: int|
                0 <= i < j < e.len() ==> lex_lt((#[trigger] e[i]).0, (#[trigger] e[j]).0)
            &&& f.lower is Some ==> forall|i: int|
                0 <= i < e.len() ==> !lex_lt((#[trigger] e[i]).0, f.lower->0)
            &&& f.upper is Some ==> forall|i: int|
                0 <= i < e.len() ==> lex_lt((#[trigger] e[i]).0, f.upper->0)
            &&& m[f.id][0] == 2 && node_of(m[f.id]).high_key is Some ==> forall|i: int|
                0 <= i < e.len() ==> lex_lt((#[trigger] e[i]).0, node_of(m[f.id]).high_key->0)
        }),
{
    let e = listed(m[f.id]);
    assert forall|i: int, j: int| 0 <= i < j < e.len() implies lex_lt(
        (#[trigger] e[i]).0,
        (#[trigger] e[j]).0,
    ) by {
        lemma_ordered(e, i, j);
    }
    if f.lower is Some {
        assert forall|i: int| 0 <= i < e.len() implies !lex_lt((#[trigger] e[i]).0, f.lower->0) by {
            if lex_lt(e[i].0, f.lower->0) && i > 0 {
                crate::key_order::lemma_lex_transitive(e[0].0, e[i].0, f.lower->0);
            }
        }
    }
    if f.upper is Some {
        lemma_below(e, f.upper->0);
    }
    if m[f.id][0] == 2 && node_of(m[f.id]).high_key is Some {
        lemma_below(e, node_of(m[f.id]).high_key->0);
    }
}

proof fn lemma_below(e: Entries, top: Seq<u8>)
    requires
        !unordered(e),
        !ends_above(e, Some(top)),
    ensures
        forall|i: int| 0 <= i < e.len() ==> lex_lt((#[trigger] e[i]).0, top),
{
    assert forall|i: int| 0 <= i < e.len() implies lex_lt((#[trigger] e[i]).0, top) by {
        if i < e.len() - 1 {
            lemma_ordered(e, i, e.len() - 1);
            crate::key_order::lemma_lex_transitive(e[i].0, e.last().0, top);
        }
    }
}

/// A leaf is linked as it should be exactly if it is the last one, or has a high key and
/// a next leaf that is there and, where that one has keys, begins with the high key.
pub proof fn law_link_without_fault(m: Map<PageId, Seq<u8>>, p: PageId)
    ensures
        link_fault(m, p) is None <==> {
            let h = node_of(m[p]);
            h.next_leaf is None || (h.high_key is Some && m.contains_key(h.next_leaf->0) && (listed(
                m[h.next_leaf->0],
            ).len() == 0 || listed(m[h.next_leaf->0])[0].0 == h.high_key->0))
        },
{
}

} // verus!
