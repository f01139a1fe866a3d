//! LSNs and request ids: who may write next, and what is durable.
use vstd::prelude::*;
use vstd::string::*;

use crate::common::{io_error, is_io_error, Error, IoErrorKind, Result};
use crate::text::{dec, put_num, text_num2};

verus! {

/// Pages that one transaction may write when they go to storage nodes.
pub const MAX_WRITES_PER_TXN: usize = 256;

/// `rand::random`: some number. Nothing is promised of it.
#[verifier::external_body]
fn random_u64() -> (r: u64) {
    rand::random::<u64>()
}

/// The first request id, given a random number: never zero.
pub fn seed_from(random: u64) -> (r: u64)
    ensures
        r == (if random == 0 {
            1
        } else {
            random
        }),
{
    if random == 0 {
        1
    } else {
        random
    }
}

/// A first request id. Different processes are unlikely to get the same one.
pub fn request_seed() -> (r: u64)
    ensures
        r != 0,
{
    seed_from(random_u64())
}

/// Nodes that must confirm a write: what is asked for, at least one and at most all.
pub open spec fn effective_quorum(quorum: int, nodes: int) -> int {
    let q = if quorum < 1 {
        1
    } else {
        quorum
    };
    if q > nodes {
        nodes
    } else {
        q
    }
}

pub fn clamp_quorum(quorum: usize, nodes: usize) -> (r: usize)
    ensures
        r == effective_quorum(quorum as int, nodes as int),
        1 <= quorum <= nodes ==> r == quorum,
        quorum == 0 && nodes > 0 ==> r == 1,
        quorum > nodes ==> r == nodes,
{
    let q: usize = if quorum < 1 {
        1
    } else {
        quorum
    };
    if q > nodes {
        nodes
    } else {
        q
    }
}

/// Texts one after another, with a bar between them.
pub open spec fn barred(errs: Seq<String>, n: int) -> Seq<char>
    decreases n,
{
    if n <= 0 {
        seq![]
    } else if n == 1 {
        errs[0]@
    } else {
        barred(errs, n - 1) + " | "@ + errs[n - 1]@
    }
}

fn push_barred(out: &mut String, errs: &Vec<String>, n: usize)
    requires
        n <= errs@.len(),
    ensures
        final(out)@ == old(out)@ + barred(errs@, n as int),
{
    let mut i: usize = 0;
    let ghost head = out@;
    assert(out@ =~= head + barred(errs@, 0));
    while i < n
        invariant
            i <= n,
            n <= errs@.len(),
            out@ == head + barred(errs@, i as int),
        decreases n - i,
    {
        let ghost before = out@;
        if i > 0 {
            out.append(" | ");
        }
        out.append(errs[i].as_str());
        assert(out@ =~= head + barred(errs@, i + 1));
        i += 1;
    }
}

/// Rejects a set of nodes of which too few can be reached.
pub fn check_reachable(reachable: usize, quorum: usize, errs: &Vec<String>) -> (r: Result<()>)
    ensures
        if reachable < quorum {
            r matches Err(e) && is_io_error(
                e,
                IoErrorKind::Other,
                "not enough reachable storage nodes: reachable="@ + dec(reachable as int)
                    + " required="@ + dec(quorum as int) + " (errors: "@ + barred(
                    errs@,
                    errs@.len() as int,
                ) + ")"@,
            )
        } else {
            r is Ok
        },
{
    if reachable < quorum {
        let mut m = text_num2(
            "not enough reachable storage nodes: reachable=",
            reachable as u64,
            " required=",
            quorum as u64,
        );
        m.append(" (errors: ");
        push_barred(&mut m, errs, errs.len());
        m.append(")");
        return Err(io_error(IoErrorKind::Other, m.as_str()));
    }
    Ok(())
}

/// How many of the numbers are at least `x`.
pub open spec fn at_least(a: Seq<u64>, x: int, n: int) -> int
    decreases n,
{
    if n <= 0 {
        0
    } else {
        at_least(a, x, n - 1) + if a[n - 1] >= x {
            1int
        } else {
            0
        }
    }
}

/// `x` is the greatest LSN that at least `quorum` of the nodes hold durable.
pub open spec fn is_quorum_lsn(lsns: Seq<u64>, quorum: int, x: int) -> bool {
    &&& lsns.contains(x as u64)
    &&& at_least(lsns, x, lsns.len() as int) >= quorum
    &&& forall|y: int| #[trigger] at_least(lsns, y, lsns.len() as int) >= quorum ==> y <= x
}

/// Raising the bar within a gap between the numbers changes no count.
proof fn lemma_at_least_gap(a: Seq<u64>, x: int, y: int, n: int)
    requires
        x <= y,
        0 <= n <= a.len(),
        forall|i: int| 0 <= i < n && #[trigger] a[i] >= x ==> a[i] >= y,
    ensures
        at_least(a, x, n) == at_least(a, y, n),
    decreases n,
{
    if n > 0 {
        lemma_at_least_gap(a, x, y, n - 1);
    }
}

proof fn lemma_none_at_least(a: Seq<u64>, x: int, n: int)
    requires
        0 <= n <= a.len(),
        forall|i: int| 0 <= i < n ==> #[trigger] a[i] < x,
    ensures
        at_least(a, x, n) == 0,
    decreases n,
{
    if n > 0 {
        lemma_none_at_least(a, x, n - 1);
    }
}

fn count_at_least(a: &Vec<u64>, x: u64) -> (r: usize)
    ensures
        r == at_least(a@, x as int, a@.len() as int),
{
    let n: usize = a.len();
    let mut c: usize = 0;
    let mut i: usize = 0;
    while i < n
        invariant
            n == a@.len(),
            i <= n,
            c == at_least(a@, x as int, i as int),
            c <= i,
        decreases n - i,
    {
        if a[i] >= x {
            c += 1;
        }
        i += 1;
    }
    c
}

/// The greatest LSN that at least `quorum` of the nodes hold durable; zero when
/// there are fewer nodes.
pub fn quorum_lsn(lsns: &Vec<u64>, quorum: usize) -> (r: u64)
    requires
        quorum >= 1,
    ensures
        quorum <= lsns@.len() ==> is_quorum_lsn(lsns@, quorum as int, r as int),
        quorum > lsns@.len() ==> r == 0,
{
    let n: usize = lsns.len();
    let ghost a = lsns@;
    if quorum > n {
        return 0;
    }
    let mut best: Option<u64> = None;
    let mut i: usize = 0;
    while i < n
        invariant
            n == lsns@.len(),
            a == lsns@,
            i <= n,
            match best {
                Some(b) => a.contains(b) && at_least(a, b as int, n as int) >= quorum && forall|
                    j: int,
                |
                    0 <= j < i && #[trigger] at_least(a, a[j] as int, n as int) >= quorum ==> a[j]
                        <= b,
                None => forall|j: int|
                    0 <= j < i ==> #[trigger] at_least(a, a[j] as int, n as int) < quorum,
            },
        decreases n - i,
    {
        let x: u64 = lsns[i];
        if count_at_least(lsns, x) >= quorum {
            assert(a[i as int] == x);
            match best {
                Some(b) => {
                    if x > b {
                        best = Some(x);
                    }
                },
                None => {
                    best = Some(x);
                },
            }
        }
        i += 1;
    }
    proof {
        lemma_quorum(a, quorum as int, best);
    }
    best.unwrap()
}

/// The least element is held by all, so that some element is held by a quorum;
/// the greatest such one is the greatest LSN of all that a quorum holds.
proof fn lemma_quorum(a: Seq<u64>, quorum: int, best: Option<u64>)
    requires
        1 <= quorum <= a.len(),
        match best {
            Some(b) => a.contains(b) && at_least(a, b as int, a.len() as int) >= quorum && forall|
                j: int,
            |
                0 <= j < a.len() && #[trigger] at_least(a, a[j] as int, a.len() as int) >= quorum
                    ==> a[j] <= b,
            None => forall|j: int|
                0 <= j < a.len() ==> #[trigger] at_least(a, a[j] as int, a.len() as int) < quorum,
        },
    ensures
        best matches Some(b) && is_quorum_lsn(a, quorum, b as int),
{
    let n = a.len() as int;
    let least = lemma_least(a, n);
    lemma_all_at_least(a, a[least] as int, n);
    assert(at_least(a, a[least] as int, n) >= quorum);
    let b = best->0;
    assert forall|y: int| #[trigger] at_least(a, y, n) >= quorum implies y <= b by {
        if y > b {
            if forall|i: int| 0 <= i < n ==> #[trigger] a[i] < y {
                lemma_none_at_least(a, y, n);
            } else {
                let i0 = choose|i: int| 0 <= i < n && #[trigger] a[i] >= y;
                let k = lemma_least_above(a, y, n, i0);
                lemma_at_least_gap(a, y, a[k] as int, n);
                assert(at_least(a, a[k] as int, n) >= quorum);
            }
        }
    }
}

proof fn lemma_least(a: Seq<u64>, n: int) -> (k: int)
    requires
        0 < n <= a.len(),
    ensures
        0 <= k < n,
        forall|i: int| 0 <= i < n ==> a[k] <= #[trigger] a[i],
    decreases n,
{
    if n == 1 {
        0
    } else {
        let k = lemma_least(a, n - 1);
        if a[n - 1] < a[k] {
            n - 1
        } else {
            k
        }
    }
}

proof fn lemma_all_at_least(a: Seq<u64>, x: int, n: int)
    requires
        0 <= n <= a.len(),
        forall|i: int| 0 <= i < n ==> x <= #[trigger] a[i],
    ensures
        at_least(a, x, n) == n,
    decreases n,
{
    if n > 0 {
        lemma_all_at_least(a, x, n - 1);
    }
}

proof fn lemma_least_above(a: Seq<u64>, y: int, n: int, i0: int) -> (k: int)
    requires
        0 <= i0 < n <= a.len(),
        a[i0] >= y,
    ensures
        0 <= k < n,
        a[k] >= y,
        forall|i: int| 0 <= i < n && #[trigger] a[i] >= y ==> a[i] >= a[k],
    decreases n,
{
    if n == 1 {
        0
    } else if exists|i: int| 0 <= i < n - 1 && #[trigger] a[i] >= y {
        let i1 = choose|i: int| 0 <= i < n - 1 && #[trigger] a[i] >= y;
        let k = lemma_least_above(a, y, n - 1, i1);
        if a[n - 1] >= y && a[n - 1] < a[k] {
            n - 1
        } else {
            k
        }
    } else {
        n - 1
    }
}

/// What a storage node answered to a batch.
#[derive(Debug)]
pub enum NodeReply {
    Acked { commit: u64, durable: u64 },
    /// The text of the failure.
    Failed(String),
}

/// The LSN that a reply confirms, if it confirms the batch.
pub open spec fn confirmed(r: NodeReply, end_lsn: u64) -> Option<u64> {
    match r {
        NodeReply::Acked { commit, durable } => if commit >= end_lsn {
            Some(commit)
        } else if durable >= end_lsn {
            Some(durable)
        } else {
            None
        },
        NodeReply::Failed(_) => None,
    }
}

/// The LSNs that the first `n` replies confirm.
pub open spec fn confirmations(rs: Seq<NodeReply>, end_lsn: u64, n: int) -> Seq<u64>
    decreases n,
{
    if n <= 0 {
        seq![]
    } else {
        match confirmed(rs[n - 1], end_lsn) {
            Some(x) => confirmations(rs, end_lsn, n - 1).push(x),
            None => confirmations(rs, end_lsn, n - 1),
        }
    }
}

/// What is said of a reply that does not confirm the batch.
pub open spec fn complaint(r: NodeReply, end_lsn: u64) -> Seq<char> {
    match r {
        NodeReply::Acked { commit, durable } => "ack too small: commit="@ + dec(commit as int)
            + " durable="@ + dec(durable as int) + " need>="@ + dec(end_lsn as int),
        NodeReply::Failed(m) => "rpc err: "@ + m@,
    }
}

/// What is said of the first `n` replies that do not confirm the batch.
pub open spec fn complaints(rs: Seq<NodeReply>, end_lsn: u64, n: int) -> Seq<Seq<char>>
    decreases n,
{
    if n <= 0 {
        seq![]
    } else if confirmed(rs[n - 1], end_lsn) is None {
        complaints(rs, end_lsn, n - 1).push(complaint(rs[n - 1], end_lsn))
    } else {
        complaints(rs, end_lsn, n - 1)
    }
}

pub open spec fn texts(v: Seq<String>) -> Seq<Seq<char>> {
    Seq::new(v.len(), |i: int| v[i]@)
}

/// The message of a batch that no quorum confirmed; no more than three
/// complaints are quoted.
pub open spec fn no_quorum_text(acks: int, quorum: int, errs: Seq<String>) -> Seq<char> {
    let head = "quorum not reached: acks="@ + dec(acks) + " quorum="@ + dec(quorum);
    if errs.len() == 0 {
        head
    } else if errs.len() > 3 {
        head + "; errors=["@ + barred(errs, 3) + " | ..."@ + "]"@
    } else {
        head + "; errors=["@ + barred(errs, errs.len() as int) + "]"@
    }
}

fn no_quorum_message(acks: usize, quorum: usize, errs: &Vec<String>) -> (r: String)
    ensures
        r@ == no_quorum_text(acks as int, quorum as int, errs@),
{
    let mut m = text_num2("quorum not reached: acks=", acks as u64, " quorum=", quorum as u64);
    let n: usize = errs.len();
    if n > 0 {
        m.append("; errors=[");
        if n > 3 {
            push_barred(&mut m, errs, 3);
            m.append(" | ...");
        } else {
            push_barred(&mut m, errs, n);
        }
        m.append("]");
    }
    m
}

/// What the replies of all nodes mean for a batch.
#[derive(Debug)]
pub struct QuorumOutcome {
    pub acks: Vec<u64>,
    pub errs: Vec<String>,
}

/// Sorts the replies into confirmations and complaints.
pub fn tally(replies: &Vec<NodeReply>, end_lsn: u64) -> (r: QuorumOutcome)
    ensures
        r.acks@ == confirmations(replies@, end_lsn, replies@.len() as int),
        texts(r.errs@) == complaints(replies@, end_lsn, replies@.len() as int),
{
    let n: usize = replies.len();
    let mut acks: Vec<u64> = Vec::new();
    let mut errs: Vec<String> = Vec::new();
    let mut i: usize = 0;
    assert(texts(errs@) =~= Seq::<Seq<char>>::empty());
    while i < n
        invariant
            n == replies@.len(),
            i <= n,
            acks@ == confirmations(replies@, end_lsn, i as int),
            texts(errs@) == complaints(replies@, end_lsn, i as int),
        decreases n - i,
    {
        let ghost before = errs@;
        match &replies[i] {
            NodeReply::Acked { commit, durable } => {
                if *commit >= end_lsn {
                    acks.push(*commit);
                } else if *durable >= end_lsn {
                    acks.push(*durable);
                } else {
                    let mut m = text_num2(
                        "ack too small: commit=",
                        *commit,
                        " durable=",
                        *durable,
                    );
                    put_num(&mut m, " need>=", end_lsn);
                    let ghost t = m@;
                    errs.push(m);
                    assert(texts(errs@) =~= texts(before).push(t));
                }
            },
            NodeReply::Failed(e) => {
                let m = String::from_str("rpc err: ").concat(e.as_str());
                let ghost t = m@;
                errs.push(m);
                assert(texts(errs@) =~= texts(before).push(t));
            },
        }
        i += 1;
    }
    QuorumOutcome { acks, errs }
}

/// What a waiting batch does next.
#[derive(Debug)]
pub enum DispatchTurn {
    /// It is this batch's turn.
    Go,
    /// An earlier batch goes first.
    Wait,
    /// The range was passed over.
    Stale(Error),
}

/// Assigns LSNs to batches, in one sequence, and follows what a quorum of
/// storage nodes confirmed.
#[derive(Debug)]
pub struct SequencerState {
    pub quorum: usize,
    /// Exclusive right boundary of what was assigned.
    pub next_lsn: u64,
    pub request_id: u64,
    /// Exclusive right boundary of what a quorum holds.
    pub durable_lsn: u64,
    /// The start of the batch that may go to the nodes next.
    pub dispatch_lsn: u64,
}

impl SequencerState {
    /// A sequencer above nodes with the given durable LSNs.
    pub fn new(lsns: &Vec<u64>, quorum: usize, random: u64) -> (r: SequencerState)
        requires
            quorum >= 1,
        ensures
            r.quorum == quorum,
            quorum <= lsns@.len() ==> is_quorum_lsn(lsns@, quorum as int, r.durable_lsn as int),
            quorum > lsns@.len() ==> r.durable_lsn == 0,
            r.next_lsn == r.durable_lsn,
            r.dispatch_lsn == r.durable_lsn,
            r.request_id == (if random == 0 {
                1
            } else {
                random
            }),
    {
        let durable: u64 = quorum_lsn(lsns, quorum);
        SequencerState {
            quorum,
            next_lsn: durable,
            request_id: seed_from(random),
            durable_lsn: durable,
            dispatch_lsn: durable,
        }
    }

    pub fn durable_lsn(&self) -> (r: u64)
        ensures
            r == self.durable_lsn,
    {
        self.durable_lsn
    }

    /// The snapshot of a read that begins now.
    pub fn begin_ro(&self) -> (r: u64)
        ensures
            r == self.durable_lsn,
    {
        self.durable_lsn
    }

    /// The next request id.
    pub fn allocate_request_id(&mut self) -> (r: u64)
        ensures
            r == old(self).request_id,
            final(self).request_id == old(self).request_id.wrapping_add(1),
            final(self).next_lsn == old(self).next_lsn,
            final(self).durable_lsn == old(self).durable_lsn,
            final(self).dispatch_lsn == old(self).dispatch_lsn,
            final(self).quorum == old(self).quorum,
    {
        let id: u64 = self.request_id;
        self.request_id = id.wrapping_add(1);
        id
    }

    /// Assigns the next `n_writes` LSNs.
    pub fn reserve_txn_with_request_id(&mut self, n_writes: usize, request_id: u64) -> (r: Result<
        (u64, u64),
    >)
        requires
            old(self).next_lsn + n_writes <= u64::MAX,
        ensures
            final(self).request_id == old(self).request_id,
            final(self).durable_lsn == old(self).durable_lsn,
            final(self).dispatch_lsn == old(self).dispatch_lsn,
            final(self).quorum == old(self).quorum,
            reserved(*old(self), n_writes as int, request_id, r, final(self).next_lsn as int),
    {
        if n_writes == 0 {
            return Err(io_error(IoErrorKind::InvalidInput, "txn batch must be non-empty"));
        }
        if n_writes > MAX_WRITES_PER_TXN {
            let m = text_num2(
                "txn batch too large: writes=",
                n_writes as u64,
                " max=",
                MAX_WRITES_PER_TXN as u64,
            );
            return Err(io_error(IoErrorKind::InvalidInput, m.as_str()));
        }
        if request_id == 0 {
            return Err(io_error(IoErrorKind::InvalidInput, "request_id must be non-zero"));
        }
        let start: u64 = self.next_lsn;
        let end: u64 = start + n_writes as u64;
        self.next_lsn = end;
        Ok((start, end))
    }

    /// Assigns the next `n_writes` LSNs under a new request id.
    pub fn reserve_txn(&mut self, n_writes: usize) -> (r: Result<(u64, u64, u64)>)
        requires
            old(self).next_lsn + n_writes <= u64::MAX,
        ensures
            final(self).request_id == old(self).request_id.wrapping_add(1),
            final(self).durable_lsn == old(self).durable_lsn,
            final(self).dispatch_lsn == old(self).dispatch_lsn,
            final(self).quorum == old(self).quorum,
            ({
                let id = old(self).request_id;
                match r {
                    Ok((q, start, end)) => q == id && reserved(
                        *old(self),
                        n_writes as int,
                        id,
                        Ok((start, end)),
                        final(self).next_lsn as int,
                    ),
                    Err(e) => reserved(
                        *old(self),
                        n_writes as int,
                        id,
                        Err(e),
                        final(self).next_lsn as int,
                    ),
                }
            }),
    {
        let id: u64 = self.allocate_request_id();
        match self.reserve_txn_with_request_id(n_writes, id) {
            Ok((start, end)) => Ok((id, start, end)),
            Err(e) => Err(e),
        }
    }

    /// Whether a reserved batch may go to the nodes: batches go in LSN order.
    pub fn dispatch_turn(&self, start_lsn: u64) -> (r: DispatchTurn)
        ensures
            if self.dispatch_lsn == start_lsn {
                r is Go
            } else if start_lsn < self.dispatch_lsn {
                r matches DispatchTurn::Stale(e) && is_io_error(
                    e,
                    IoErrorKind::InvalidInput,
                    "stale reserved range: start_lsn="@ + dec(start_lsn as int)
                        + " dispatch_lsn="@ + dec(self.dispatch_lsn as int),
                )
            } else {
                r is Wait
            },
    {
        if self.dispatch_lsn == start_lsn {
            return DispatchTurn::Go;
        }
        if start_lsn < self.dispatch_lsn {
            let m = text_num2(
                "stale reserved range: start_lsn=",
                start_lsn,
                " dispatch_lsn=",
                self.dispatch_lsn,
            );
            return DispatchTurn::Stale(io_error(IoErrorKind::InvalidInput, m.as_str()));
        }
        DispatchTurn::Wait
    }

    /// Takes the replies of all nodes to a batch. It is committed when a quorum
    /// confirmed it; either way the next batch may go.
    pub fn commit_reserved_txn_batch(&mut self, replies: &Vec<NodeReply>, end_lsn: u64) -> (r: Result<
        u64,
    >)
        requires
            old(self).quorum >= 1,
        ensures
            final(self).quorum == old(self).quorum,
            final(self).next_lsn == old(self).next_lsn,
            final(self).request_id == old(self).request_id,
            final(self).dispatch_lsn == end_lsn,
            ({
                let acks = confirmations(replies@, end_lsn, replies@.len() as int);
                let q = old(self).quorum as int;
                if acks.len() < q {
                    &&& r matches Err(e) && exists|errs: Seq<String>|
                        texts(errs) == complaints(replies@, end_lsn, replies@.len() as int)
                            && is_io_error(
                            e,
                            IoErrorKind::Other,
                            #[trigger] no_quorum_text(acks.len() as int, q, errs),
                        )
                    &&& final(self).durable_lsn == old(self).durable_lsn
                } else {
                    &&& r == Ok::<u64, Error>(end_lsn)
                    &&& exists|d: u64| #[trigger]
                        is_quorum_lsn(acks, q, d as int) && final(self).durable_lsn == (if d
                            > old(self).durable_lsn {
                            d
                        } else {
                            old(self).durable_lsn
                        })
                }
            }),
    {
        let outcome = tally(replies, end_lsn);
        if outcome.acks.len() < self.quorum {
            self.dispatch_lsn = end_lsn;
            let m = no_quorum_message(outcome.acks.len(), self.quorum, &outcome.errs);
            return Err(io_error(IoErrorKind::Other, m.as_str()));
        }
        let d: u64 = quorum_lsn(&outcome.acks, self.quorum);
        assert(is_quorum_lsn(outcome.acks@, self.quorum as int, d as int));
        if d > self.durable_lsn {
            self.durable_lsn = d;
        }
        self.dispatch_lsn = end_lsn;
        Ok(end_lsn)
    }
}

/// The outcome of reserving `n` LSNs, and the next LSN after it.
pub open spec fn reserved(
    s: SequencerState,
    n: int,
    request_id: u64,
    r: Result<(u64, u64)>,
    next: int,
) -> bool {
    if n == 0 {
        &&& r matches Err(e) && is_io_error(
            e,
            IoErrorKind::InvalidInput,
            "txn batch must be non-empty"@,
        )
        &&& next == s.next_lsn
    } else if n > MAX_WRITES_PER_TXN {
        &&& r matches Err(e) && is_io_error(
            e,
            IoErrorKind::InvalidInput,
            "txn batch too large: writes="@ + dec(n) + " max="@ + dec(MAX_WRITES_PER_TXN as int),
        )
        &&& next == s.next_lsn
    } else if request_id == 0 {
        &&& r matches Err(e) && is_io_error(
            e,
            IoErrorKind::InvalidInput,
            "request_id must be non-zero"@,
        )
        &&& next == s.next_lsn
    } else {
        &&& r matches Ok((start, end)) && start == s.next_lsn && end == s.next_lsn + n
        &&& next == s.next_lsn + n
    }
}

proof fn lemma_confirmations_high(rs: Seq<NodeReply>, end_lsn: u64, n: int)
    requires
        0 <= n <= rs.len(),
    ensures
        forall|i: int|
            0 <= i < confirmations(rs, end_lsn, n).len() ==> #[trigger] confirmations(
                rs,
                end_lsn,
                n,
            )[i] >= end_lsn,
    decreases n,
{
    if n > 0 {
        lemma_confirmations_high(rs, end_lsn, n - 1);
        let before = confirmations(rs, end_lsn, n - 1);
        let all = confirmations(rs, end_lsn, n);
        assert forall|i: int| 0 <= i < all.len() implies #[trigger] all[i] >= end_lsn by {
            if i < before.len() {
                assert(all[i] == before[i]);
            }
        }
    }
}

/// A committed batch is durable: the boundary that a quorum confirmed is not
/// below the batch's end.
pub proof fn law_committed_is_durable(
    replies: Seq<NodeReply>,
    end_lsn: u64,
    quorum: int,
    d: u64,
)
    requires
        is_quorum_lsn(confirmations(replies, end_lsn, replies.len() as int), quorum, d as int),
    ensures
        d >= end_lsn,
{
    let acks = confirmations(replies, end_lsn, replies.len() as int);
    lemma_confirmations_high(replies, end_lsn, replies.len() as int);
    let i = choose|i: int| 0 <= i < acks.len() && acks[i] == d;
    assert(acks[i] >= end_lsn);
}

/// Two reservations one after the other do not overlap, and leave no gap.
pub proof fn law_reservations_adjoin(
    s: SequencerState,
    n1: int,
    id1: u64,
    s1: u64,
    e1: u64,
    t: SequencerState,
    n2: int,
    id2: u64,
    s2: u64,
    e2: u64,
    next: int,
)
    requires
        n1 >= 0,
        n2 >= 0,
        reserved(s, n1, id1, Ok((s1, e1)), t.next_lsn as int),
        reserved(t, n2, id2, Ok((s2, e2)), next),
    ensures
        s1 < e1 == s2 < e2,
{
}

/// A quorum is what is asked for, where so many nodes are there; none asked for is one,
/// and more than there are is all of them.
pub proof fn law_quorum_is_as_asked(quorum: int, nodes: int)
    requires
        quorum >= 0,
        nodes >= 0,
    ensures
        1 <= quorum <= nodes ==> effective_quorum(quorum, nodes) == quorum,
        quorum == 0 && nodes > 0 ==> effective_quorum(quorum, nodes) == 1,
        quorum > nodes ==> effective_quorum(quorum, nodes) == nodes,
        nodes > 0 ==> 1 <= effective_quorum(quorum, nodes) <= nodes,
{
}

/// The places of numbers that are at least `x`.
pub open spec fn places_from(a: Seq<u64>, x: int, n: int) -> Set<int> {
    Set::new(|i: int| 0 <= i < n && a[i] >= x)
}

proof fn lemma_at_least_counts(a: Seq<u64>, x: int, n: int)
    requires
        0 <= n <= a.len(),
    ensures
        places_from(a, x, n).finite(),
        places_from(a, x, n).len() == at_least(a, x, n),
    decreases n,
{
    if n > 0 {
        lemma_at_least_counts(a, x, n - 1);
        let before = places_from(a, x, n - 1);
        if a[n - 1] >= x {
            assert(places_from(a, x, n) =~= before.insert(n - 1));
        } else {
            assert(places_from(a, x, n) =~= before);
        }
    } else {
        assert(places_from(a, x, n) =~= Set::empty());
    }
}

/// The quorum-durable LSN is one that a node reported; as many nodes as the quorum asks
/// for hold everything up to it, and fewer hold more.
pub proof fn law_quorum_lsn_is_held(lsns: Seq<u64>, quorum: int, x: u64)
    requires
        is_quorum_lsn(lsns, quorum, x as int),
    ensures
        exists|i: int| 0 <= i < lsns.len() && #[trigger] lsns[i] == x,
        Set::new(|i: int| 0 <= i < lsns.len() && lsns[i] >= x).len() >= quorum,
        Set::new(|i: int| 0 <= i < lsns.len() && lsns[i] > x).len() < quorum,
{
    let n = lsns.len() as int;
    lemma_at_least_counts(lsns, x as int, n);
    lemma_at_least_counts(lsns, x + 1, n);
    assert(Set::new(|i: int| 0 <= i < lsns.len() && lsns[i] >= x) =~= places_from(
        lsns,
        x as int,
        n,
    ));
    assert(Set::new(|i: int| 0 <= i < lsns.len() && lsns[i] > x) =~= places_from(lsns, x + 1, n));
    let i = choose|i: int| 0 <= i < lsns.len() && lsns[i] == x;
    assert(lsns[i] == x);
    if at_least(lsns, x + 1, n) >= quorum {
        assert(x + 1 <= x);
    }
}

/// The nodes whose answers confirm a batch that ends at `end_lsn`.
pub open spec fn confirming(rs: Seq<NodeReply>, end_lsn: u64, n: int) -> Set<int> {
    Set::new(
        |i: int|
            0 <= i < n && (rs[i] matches NodeReply::Acked { commit, durable } && (commit >= end_lsn
                || durable >= end_lsn)),
    )
}

proof fn lemma_confirmations(rs: Seq<NodeReply>, end_lsn: u64, n: int)
    requires
        0 <= n <= rs.len(),
    ensures
        confirming(rs, end_lsn, n).finite(),
        confirmations(rs, end_lsn, n).len() == confirming(rs, end_lsn, n).len(),
        complaints(rs, end_lsn, n).len() == n - confirming(rs, end_lsn, n).len(),
        forall|i: int|
            0 <= i < confirmations(rs, end_lsn, n).len() ==> {
                let x = #[trigger] confirmations(rs, end_lsn, n)[i];
                x >= end_lsn && exists|j: int|
                    0 <= j < n && (#[trigger] rs[j] matches NodeReply::Acked { commit, durable } && (
                    x == commit || x == durable && commit < end_lsn))
            },
    decreases n,
{
    let now = confirming(rs, end_lsn, n);
    if n > 0 {
        lemma_confirmations(rs, end_lsn, n - 1);
        let before = confirming(rs, end_lsn, n - 1);
        if confirmed(rs[n - 1], end_lsn) is Some {
            assert(now =~= before.insert(n - 1));
        } else {
            assert(now =~= before);
        }
        let all = confirmations(rs, end_lsn, n);
        let old = confirmations(rs, end_lsn, n - 1);
        assert forall|i: int| 0 <= i < all.len() implies {
            let x = #[trigger] all[i];
            x >= end_lsn && exists|j: int|
                0 <= j < n && (#[trigger] rs[j] matches NodeReply::Acked { commit, durable } && (x
                    == commit || x == durable && commit < end_lsn))
        } by {
            if i < old.len() {
                assert(all[i] == old[i]);
                let x = old[i];
                let j = choose|j: int|
                    0 <= j < n - 1 && (#[trigger] rs[j] matches NodeReply::Acked {
                        commit,
                        durable,
                    } && (x == commit || x == durable && commit < end_lsn));
                assert(0 <= j < n && rs[j] is Acked);
            } else {
                assert(rs[n - 1] is Acked);
            }
        }
    } else {
        assert(now =~= Set::empty());
    }
}

/// A batch has as many confirmations as nodes answered that they hold it: one per node
/// whose commit or durable LSN reaches the end of the batch, and none of a node that
/// failed or is behind. So it is committed only if that many are a quorum.
pub proof fn law_confirmations_are_nodes(rs: Seq<NodeReply>, end_lsn: u64)
    ensures
        ({
            let acks = confirmations(rs, end_lsn, rs.len() as int);
            let holding = Set::new(
                |i: int|
                    0 <= i < rs.len() && (rs[i] matches NodeReply::Acked { commit, durable } && (
                    commit >= end_lsn || durable >= end_lsn)),
            );
            &&& acks.len() == holding.len()
            &&& complaints(rs, end_lsn, rs.len() as int).len() == rs.len() - holding.len()
            &&& forall|i: int|
                0 <= i < acks.len() ==> {
                    let x = #[trigger] acks[i];
                    x >= end_lsn && exists|j: int|
                        0 <= j < rs.len() && (#[trigger] rs[j] matches NodeReply::Acked {
                            commit,
                            durable,
                        } && (x == commit || x == durable && commit < end_lsn))
                }
        }),
{
    lemma_confirmations(rs, end_lsn, rs.len() as int);
    let holding = Set::new(
        |i: int|
            0 <= i < rs.len() && (rs[i] matches NodeReply::Acked { commit, durable } && (commit
                >= end_lsn || durable >= end_lsn)),
    );
    assert(holding =~= confirming(rs, end_lsn, rs.len() as int));
}

/// A reservation gives out exactly the LSNs that were asked for, beginning with the next
/// one, and the next one is then behind them. It is refused only to a request for none,
/// for more than 256, or without an id, and then gives nothing out.
pub proof fn law_reservation_is_exact(
    s: SequencerState,
    n: int,
    request_id: u64,
    r: Result<(u64, u64)>,
    next: int,
)
    requires
        n >= 0,
        reserved(s, n, request_id, r, next),
    ensures
        r is Ok <==> 1 <= n <= 256 && request_id != 0,
        r matches Ok((start, end)) ==> start == s.next_lsn && end - start == n && next == end,
        r is Err ==> next == s.next_lsn,
{
}

/// Each node either confirms or is complained of, and a complaint is of a node that did
/// not confirm.
pub proof fn law_every_node_counts(rs: Seq<NodeReply>, end_lsn: u64, n: int)
    requires
        0 <= n <= rs.len(),
    ensures
        complaints(rs, end_lsn, n).len() + confirmations(rs, end_lsn, n).len() == n,
        forall|i: int|
            0 <= i < n && !(#[trigger] rs[i] matches NodeReply::Acked { commit, durable } && (commit
                >= end_lsn || durable >= end_lsn)) ==> complaints(rs, end_lsn, n).contains(
                complaint(rs[i], end_lsn),
            ),
    decreases n,
{
    if n > 0 {
        law_every_node_counts(rs, end_lsn, n - 1);
        let before = complaints(rs, end_lsn, n - 1);
        let now = complaints(rs, end_lsn, n);
        assert forall|i: int|
            0 <= i < n && !(#[trigger] rs[i] matches NodeReply::Acked { commit, durable } && (commit
                >= end_lsn || durable >= end_lsn)) implies now.contains(
            complaint(rs[i], end_lsn),
        ) by {
            if i < n - 1 {
                let j = choose|j: int| 0 <= j < before.len() && before[j] == complaint(rs[i], end_lsn);
                assert(now[j] == complaint(rs[i], end_lsn));
            } else {
                assert(now[before.len() as int] == complaint(rs[i], end_lsn));
            }
        }
    }
}

} // verus!
