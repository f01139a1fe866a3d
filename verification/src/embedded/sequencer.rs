//! Either kind of sequencer.
use vstd::prelude::*;

use super::inprocess::InProcessSequencer;
use crate::common::{is_io_error, IoErrorKind, Result};
use crate::compute_sequencer::{SequencerState, MAX_WRITES_PER_TXN};
use crate::text::dec;

verus! {

/// Assigns LSNs, for storage nodes or within one process.
#[derive(Debug)]
pub enum Sequencer {
    Network(SequencerState),
    InProcess(InProcessSequencer),
}

impl Sequencer {
    pub open spec fn next(&self) -> u64 {
        match self {
            Sequencer::Network(s) => s.next_lsn,
            Sequencer::InProcess(s) => s.next_lsn,
        }
    }

    pub open spec fn durable(&self) -> u64 {
        match self {
            Sequencer::Network(s) => s.durable_lsn,
            Sequencer::InProcess(s) => s.durable_lsn,
        }
    }

    pub open spec fn request(&self) -> u64 {
        match self {
            Sequencer::Network(s) => s.request_id,
            Sequencer::InProcess(s) => s.request_id,
        }
    }

    /// `n` LSNs are given out under the request id.
    pub open spec fn grants(&self, n: int, request_id: u64) -> bool {
        n > 0 && request_id != 0 && (*self is Network ==> n <= MAX_WRITES_PER_TXN)
    }

    /// The error with which `n` LSNs are refused.
    pub open spec fn refused<T>(&self, n: int, request_id: u64, r: Result<T>) -> bool {
        let text = if n == 0 {
            "txn batch must be non-empty"@
        } else if *self is Network && n > MAX_WRITES_PER_TXN {
            "txn batch too large: writes="@ + dec(n) + " max="@ + dec(MAX_WRITES_PER_TXN as int)
        } else {
            "request_id must be non-zero"@
        };
        r matches Err(e) && is_io_error(e, IoErrorKind::InvalidInput, text)
    }

    pub fn begin_ro(&self) -> (r: u64)
        ensures
            r == self.durable(),
    {
        match self {
            Sequencer::Network(s) => s.begin_ro(),
            Sequencer::InProcess(s) => s.begin_ro(),
        }
    }

    pub fn durable_lsn(&self) -> (r: u64)
        ensures
            r == self.durable(),
    {
        match self {
            Sequencer::Network(s) => s.durable_lsn(),
            Sequencer::InProcess(s) => s.durable_lsn(),
        }
    }

    pub fn allocate_request_id(&mut self) -> (r: u64)
        ensures
            r == old(self).request(),
            final(self).request() == old(self).request().wrapping_add(1),
            final(self).next() == old(self).next(),
            final(self).durable() == old(self).durable(),
            *final(self) is Network == *old(self) is Network,
    {
        match self {
            Sequencer::Network(s) => s.allocate_request_id(),
            Sequencer::InProcess(s) => s.allocate_request_id(),
        }
    }

    pub fn reserve_txn_with_request_id(&mut self, n_writes: usize, request_id: u64) -> (r: Result<
        (u64, u64),
    >)
        requires
            old(self).next() + n_writes <= u64::MAX,
        ensures
            final(self).durable() == old(self).durable(),
            final(self).request() == old(self).request(),
            *final(self) is Network == *old(self) is Network,
            if old(self).grants(n_writes as int, request_id) {
                &&& r matches Ok((start, end)) && start == old(self).next() && end == old(
                    self,
                ).next() + n_writes
                &&& final(self).next() == old(self).next() + n_writes
            } else {
                old(self).refused(n_writes as int, request_id, r) && final(self).next() == old(
                    self,
                ).next()
            },
    {
        match self {
            Sequencer::Network(s) => s.reserve_txn_with_request_id(n_writes, request_id),
            Sequencer::InProcess(s) => s.reserve_txn_with_request_id(n_writes, request_id),
        }
    }

    pub fn reserve_txn(&mut self, n_writes: usize) -> (r: Result<(u64, u64, u64)>)
        requires
            old(self).next() + n_writes <= u64::MAX,
        ensures
            final(self).durable() == old(self).durable(),
            final(self).request() == old(self).request().wrapping_add(1),
            *final(self) is Network == *old(self) is Network,
            if old(self).grants(n_writes as int, old(self).request()) {
                &&& r matches Ok((id, start, end)) && id == old(self).request() && start == old(
                    self,
                ).next() && end == old(self).next() + n_writes
                &&& final(self).next() == old(self).next() + n_writes
            } else {
                old(self).refused(n_writes as int, old(self).request(), r) && final(self).next()
                    == old(self).next()
            },
    {
        match self {
            Sequencer::Network(s) => s.reserve_txn(n_writes),
            Sequencer::InProcess(s) => s.reserve_txn(n_writes),
        }
    }
}

/// LSNs are given out for at least one page, under a request id that is not zero, and over
/// the network for at most 256 pages.
pub proof fn law_what_is_granted(s: Sequencer, n: int, request_id: u64)
    ensures
        s.grants(n, request_id) <==> n >= 1 && request_id != 0 && (s is InProcess || n <= 256),
{
}

} // verus!
