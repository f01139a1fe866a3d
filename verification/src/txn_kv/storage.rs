//! Replicas of the log: how many have to answer, and which one is read.
use vstd::prelude::*;

use super::error::{Result, TxnError};

verus! {

/// Tries to bring a replica up to date before it is left behind.
pub const REPAIR_MAX_ATTEMPTS: u32 = 5;

pub const REPAIR_BASE_DELAY_MS: u64 = 50;

/// Checks the quorum of a set of replicas.
pub fn check_quorum(quorum: usize, replicas: usize) -> (r: Result<()>)
    ensures
        match r {
            Ok(_) => 1 <= quorum <= replicas,
            Err(e) => !(1 <= quorum <= replicas) && e == (TxnError::InvalidQuorum {
                quorum,
                replicas,
            }),
        },
{
    if quorum < 1 || quorum > replicas {
        return Err(TxnError::InvalidQuorum { quorum, replicas });
    }
    Ok(())
}

/// The answers to a write so far.
#[derive(Debug)]
pub struct QuorumWrite {
    pub quorum: usize,
    pub successes: usize,
    pub last_error: Option<TxnError>,
}

impl QuorumWrite {
    pub fn new(quorum: usize) -> (r: QuorumWrite)
        ensures
            r.quorum == quorum,
            r.successes == 0,
            r.last_error is None,
    {
        QuorumWrite { quorum, successes: 0, last_error: None }
    }

    /// Takes an answer; `true` when enough replicas have written.
    pub fn answer(&mut self, result: Result<()>) -> (r: bool)
        requires
            old(self).successes < usize::MAX,
        ensures
            final(self).quorum == old(self).quorum,
            match result {
                Ok(_) => final(self).successes == old(self).successes + 1 && final(self).last_error
                    == old(self).last_error && r == (final(self).successes >= final(self).quorum),
                Err(e) => final(self).successes == old(self).successes && final(self).last_error
                    == Some(e) && !r,
            },
    {
        match result {
            Ok(_) => {
                self.successes += 1;
                self.successes >= self.quorum
            },
            Err(e) => {
                self.last_error = Some(e);
                false
            },
        }
    }

    /// The error once all replicas have answered and too few have written: the
    /// last one that a replica gave, if any did.
    pub fn failed(self) -> (r: TxnError)
        ensures
            r == match self.last_error {
                Some(e) => e,
                None => TxnError::QuorumNotMet {
                    required: self.quorum,
                    succeeded: self.successes,
                },
            },
    {
        match self.last_error {
            Some(e) => e,
            None => TxnError::QuorumNotMet { required: self.quorum, succeeded: self.successes },
        }
    }
}

/// Milliseconds to wait before a replica is tried again, or nothing when it was
/// tried often enough: 50, 100, 200, 400.
pub fn repair_backoff_ms(attempt: u32) -> (r: Option<u64>)
    requires
        attempt >= 1,
    ensures
        match r {
            Some(ms) => attempt < REPAIR_MAX_ATTEMPTS && ms == REPAIR_BASE_DELAY_MS * pow2(
                attempt - 1,
            ),
            None => attempt >= REPAIR_MAX_ATTEMPTS,
        },
{
    if attempt >= REPAIR_MAX_ATTEMPTS {
        return None;
    }
    reveal_with_fuel(pow2, 5);
    if attempt == 1 {
        Some(REPAIR_BASE_DELAY_MS)
    } else if attempt == 2 {
        Some(REPAIR_BASE_DELAY_MS * 2)
    } else if attempt == 3 {
        Some(REPAIR_BASE_DELAY_MS * 4)
    } else {
        Some(REPAIR_BASE_DELAY_MS * 8)
    }
}

pub open spec fn pow2(n: int) -> int
    decreases n,
{
    if n <= 0 {
        1
    } else {
        2 * pow2(n - 1)
    }
}

/// What a replica says when it is read.
#[derive(Debug)]
pub enum ReplicaReply {
    Failed(TxnError),
    /// It can be read and holds nothing.
    Empty,
    /// It holds a state whose newest commit has this timestamp.
    Found(u64),
}

/// Reply `i` is the one to use: no other is newer, and of those as new it is
/// the first.
pub open spec fn is_best(rs: Seq<ReplicaReply>, i: int) -> bool {
    &&& 0 <= i < rs.len()
    &&& rs[i] matches ReplicaReply::Found(ts) && forall|j: int|
        0 <= j < rs.len() ==> (#[trigger] rs[j] matches ReplicaReply::Found(t) ==> t <= ts && (j < i
            ==> t < ts))
}

pub open spec fn none_found(rs: Seq<ReplicaReply>) -> bool {
    forall|i: int| 0 <= i < rs.len() ==> !(#[trigger] rs[i] is Found)
}

pub open spec fn some_empty(rs: Seq<ReplicaReply>) -> bool {
    exists|i: int| 0 <= i < rs.len() && #[trigger] rs[i] is Empty
}

/// `i` is the last replica that failed.
pub open spec fn last_failure(rs: Seq<ReplicaReply>, i: int) -> bool {
    &&& 0 <= i < rs.len()
    &&& rs[i] is Failed
    &&& forall|j: int| i < j < rs.len() ==> !(#[trigger] rs[j] is Failed)
}

/// Which replica to read from: the newest. `None` when those that answered hold
/// nothing; when none answered, the last error that one gave.
pub fn pick_replica(replies: Vec<ReplicaReply>, quorum: usize) -> (r: Result<Option<usize>>)
    ensures
        match r {
            Ok(Some(i)) => is_best(replies@, i as int),
            Ok(None) => none_found(replies@) && some_empty(replies@),
            Err(e) => none_found(replies@) && !some_empty(replies@) && if replies@.len() == 0 {
                e == (TxnError::QuorumNotMet { required: quorum, succeeded: 0 })
            } else {
                exists|i: int| #[trigger]
                    last_failure(replies@, i) && replies@[i] == ReplicaReply::Failed(e)
            },
        },
{
    let ghost rs = replies@;
    let n: usize = replies.len();
    let mut rest = replies;
    let mut best: Option<(usize, u64)> = None;
    let mut saw_empty = false;
    let mut last_error: Option<TxnError> = None;
    let mut i: usize = n;
    assert(rs.take(n as int) =~= rs);
    while i > 0
        invariant
            n == rs.len(),
            i <= n,
            rest@ == rs.take(i as int),
            match best {
                Some((b, ts)) => i <= b < n && rs[b as int] == ReplicaReply::Found(ts) && forall|
                    j: int,
                |
                    i <= j < n ==> (#[trigger] rs[j] matches ReplicaReply::Found(t) ==> t <= ts && (
                    j < b ==> t < ts)),
                None => forall|j: int| i <= j < n ==> !(#[trigger] rs[j] is Found),
            },
            saw_empty ==> some_empty(rs),
            !saw_empty ==> forall|j: int| i <= j < n ==> !(#[trigger] rs[j] is Empty),
            match last_error {
                Some(e) => exists|j: int| #[trigger]
                    last_failure(rs, j) && i <= j && rs[j] == ReplicaReply::Failed(e),
                None => forall|j: int| i <= j < n ==> !(#[trigger] rs[j] is Failed),
            },
        decreases i,
    {
        let reply = rest.pop();
        i -= 1;
        proof {
            assert(rs.take(i + 1).drop_last() =~= rs.take(i as int));
        }
        match reply {
            Some(ReplicaReply::Found(ts)) => {
                assert(rs[i as int] == ReplicaReply::Found(ts));
                let take = match best {
                    Some((_, best_ts)) => ts >= best_ts,
                    None => true,
                };
                if take {
                    best = Some((i, ts));
                }
            },
            Some(ReplicaReply::Empty) => {
                assert(rs[i as int] is Empty);
                saw_empty = true;
            },
            Some(ReplicaReply::Failed(e)) => {
                assert(rs[i as int] == ReplicaReply::Failed(e));
                if last_error.is_none() {
                    assert(last_failure(rs, i as int));
                    last_error = Some(e);
                }
            },
            None => {},
        }
    }
    if let Some((b, _)) = best {
        return Ok(Some(b));
    }
    if saw_empty {
        return Ok(None);
    }
    match last_error {
        Some(e) => Err(e),
        None => {
            assert(rs.len() == 0) by {
                if rs.len() > 0 {
                    assert(rs[0] is Found || rs[0] is Empty || rs[0] is Failed);
                }
            }
            Err(TxnError::QuorumNotMet { required: quorum, succeeded: 0 })
        },
    }
}

/// The reply that is used is the newest one, and of those as new the first.
pub proof fn law_newest_reply_counts(rs: Seq<ReplicaReply>, i: int, ts: u64)
    requires
        0 <= i < rs.len(),
        rs[i] == ReplicaReply::Found(ts),
    ensures
        is_best(rs, i) <==> (forall|j: int|
            0 <= j < rs.len() && (#[trigger] rs[j]) is Found ==> rs[j]->Found_0 <= ts && (j < i
                ==> rs[j]->Found_0 < ts)),
{
}

/// Each attempt waits twice as long as the one before.
pub proof fn law_wait_doubles(n: int)
    requires
        0 <= n,
    ensures
        pow2(0) == 1,
        pow2(n + 1) == pow2(n) + pow2(n),
{
}

} // verus!
