//! Decisions of the log writer: segments and group commit.
use vstd::prelude::*;
use vstd::string::*;

use super::config::StorageMaintenanceConfig;
use crate::common::{io_error, is_io_error, Error, IoErrorKind, Result};

verus! {

/// A segment that has reached this size is followed by another.
pub const MAX_SEGMENT_SIZE: u64 = 67108864;

#[derive(Clone, Copy, Debug, PartialEq, Eq, Structural)]
pub struct WalWriterConfig {
    pub max_group_commit_batches: usize,
    pub group_commit_wait_us: u64,
}

impl WalWriterConfig {
    pub fn from_maintenance(m: &StorageMaintenanceConfig) -> (r: WalWriterConfig)
        ensures
            r.max_group_commit_batches == m.wal_group_commit_max_batches,
            r.group_commit_wait_us == m.wal_group_commit_wait_us,
    {
        WalWriterConfig {
            max_group_commit_batches: m.wal_group_commit_max_batches,
            group_commit_wait_us: m.wal_group_commit_wait_us,
        }
    }

    /// Whether another batch may join the `pending` ones.
    pub fn may_join(&self, pending: usize) -> (r: bool)
        ensures
            r == (pending < self.max_group_commit_batches),
    {
        pending < self.max_group_commit_batches
    }
}

/// The segment that the writer appends to.
#[derive(Clone, Copy, Debug, PartialEq, Eq, Structural)]
pub struct SegmentPosition {
    pub file_id: u64,
    pub size: u64,
}

impl SegmentPosition {
    /// Where to begin: the last of the segments in ascending order, or segment 1,
    /// which is then to be created.
    pub fn open(segments: &Vec<u64>, last_size: u64) -> (r: (SegmentPosition, bool))
        ensures
            segments@.len() == 0 ==> r.0.file_id == 1 && r.0.size == 0 && r.1,
            segments@.len() > 0 ==> r.0.file_id == segments@.last() && r.0.size == last_size
                && !r.1,
    {
        let n: usize = segments.len();
        if n == 0 {
            (SegmentPosition { file_id: 1, size: 0 }, true)
        } else {
            (SegmentPosition { file_id: segments[n - 1], size: last_size }, false)
        }
    }

    /// Moves on to the next segment if this one is full; says whether it did.
    pub fn rotate_if_needed(&mut self) -> (r: bool)
        requires
            old(self).size >= MAX_SEGMENT_SIZE ==> old(self).file_id < u64::MAX,
        ensures
            r == (old(self).size >= MAX_SEGMENT_SIZE),
            if r {
                final(self).file_id == old(self).file_id + 1 && final(self).size == 0
            } else {
                *final(self) == *old(self)
            },
    {
        if self.size < MAX_SEGMENT_SIZE {
            return false;
        }
        self.file_id = self.file_id + 1;
        self.size = 0;
        true
    }

    /// Takes note of `len` bytes that were appended.
    pub fn appended(&mut self, len: usize)
        requires
            old(self).size + len <= u64::MAX,
        ensures
            final(self).file_id == old(self).file_id,
            final(self).size == old(self).size + len,
    {
        self.size = self.size + len as u64;
    }
}

/// The greatest of the first `n` numbers, at least zero.
pub open spec fn greatest(a: Seq<u64>, n: int) -> int
    decreases n,
{
    if n <= 0 {
        0
    } else if a[n - 1] > greatest(a, n - 1) {
        a[n - 1] as int
    } else {
        greatest(a, n - 1)
    }
}

/// What a group of batches is answered.
#[derive(Debug)]
pub struct GroupOutcome {
    /// The new durable boundary, if the group is durable.
    pub durable_lsn: Option<u64>,
    pub acks: Vec<Result<u64>>,
}

/// Answers the batches of a group: with their right boundaries when all of them
/// were written and flushed, else all with the failure.
pub fn group_outcome(end_lsns: &Vec<u64>, failure: Option<String>) -> (r: GroupOutcome)
    ensures
        r.acks@.len() == end_lsns@.len(),
        match failure {
            None => {
                &&& r.durable_lsn matches Some(d) && d == greatest(
                    end_lsns@,
                    end_lsns@.len() as int,
                )
                &&& forall|i: int|
                    0 <= i < end_lsns@.len() ==> #[trigger] r.acks@[i] == Ok::<u64, Error>(
                        end_lsns@[i],
                    )
            },
            Some(m) => {
                &&& r.durable_lsn is None
                &&& forall|i: int|
                    0 <= i < end_lsns@.len() ==> (#[trigger] r.acks@[i] matches Err(e)
                        && is_io_error(e, IoErrorKind::Other, m@))
            },
        },
{
    let n: usize = end_lsns.len();
    let mut acks: Vec<Result<u64>> = Vec::new();
    let mut i: usize = 0;
    match failure {
        Some(m) => {
            while i < n
                invariant
                    n == end_lsns@.len(),
                    i <= n,
                    acks@.len() == i,
                    forall|k: int|
                        0 <= k < i ==> (#[trigger] acks@[k] matches Err(e) && is_io_error(
                            e,
                            IoErrorKind::Other,
                            m@,
                        )),
                decreases n - i,
            {
                acks.push(Err(io_error(IoErrorKind::Other, m.as_str())));
                i += 1;
            }
            GroupOutcome { durable_lsn: None, acks }
        },
        None => {
            let mut max_end_lsn: u64 = 0;
            while i < n
                invariant
                    n == end_lsns@.len(),
                    i <= n,
                    acks@.len() == i,
                    max_end_lsn == greatest(end_lsns@, i as int),
                    forall|k: int|
                        0 <= k < i ==> #[trigger] acks@[k] == Ok::<u64, Error>(end_lsns@[k]),
                decreases n - i,
            {
                let e: u64 = end_lsns[i];
                if e > max_end_lsn {
                    max_end_lsn = e;
                }
                acks.push(Ok(e));
                i += 1;
            }
            GroupOutcome { durable_lsn: Some(max_end_lsn), acks }
        },
    }
}

/// A group of batches is durable up to the end of the batch that ends last: no batch of
/// the group ends beyond it, and where there is one, one ends there.
pub proof fn law_group_is_durable_to_its_end(a: Seq<u64>, n: int)
    requires
        0 <= n <= a.len(),
    ensures
        forall|i: int| 0 <= i < n ==> #[trigger] a[i] <= greatest(a, n),
        n > 0 ==> exists|i: int| 0 <= i < n && #[trigger] a[i] == greatest(a, n),
        n == 0 ==> greatest(a, n) == 0,
    decreases n,
{
    if n > 0 {
        law_group_is_durable_to_its_end(a, n - 1);
        if a[n - 1] == greatest(a, n) {
            assert(0 <= n - 1 < n && a[n - 1] == greatest(a, n));
        } else {
            let i = choose|i: int| 0 <= i < n - 1 && #[trigger] a[i] == greatest(a, n - 1);
            assert(0 <= i < n && a[i] == greatest(a, n));
        }
    }
}

} // verus!
