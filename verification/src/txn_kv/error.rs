//! Errors of the transactional store.
use vstd::prelude::*;

use crate::common::{io_category, io_error_category, size_message, ErrorCategory, IoError};
use crate::text::{dec, text_num2};
use vstd::string::*;

verus! {

#[derive(Debug, Clone, Copy, PartialEq, Eq, Structural)]
pub enum TxnErrorCategory {
    InvalidInput,
    Conflict,
    Timeout,
    Backpressure,
    Unavailable,
    Internal,
}

#[derive(Debug, Clone)]
pub enum TxnError {
    Io(IoError),
    InvalidKeySize(usize, usize),
    InvalidValueSize(usize, usize),
    WriteWriteConflict,
    CorruptWal(String),
    QuorumNotMet { required: usize, succeeded: usize },
    InvalidQuorum { quorum: usize, replicas: usize },
    TxnTimeout,
}

pub type Result<T> = std::result::Result<T, TxnError>;

/// The same category under the name that this store uses.
pub open spec fn as_txn_category(c: ErrorCategory) -> TxnErrorCategory {
    match c {
        ErrorCategory::InvalidInput => TxnErrorCategory::InvalidInput,
        ErrorCategory::Conflict => TxnErrorCategory::Conflict,
        ErrorCategory::Timeout => TxnErrorCategory::Timeout,
        ErrorCategory::Backpressure => TxnErrorCategory::Backpressure,
        ErrorCategory::Unavailable => TxnErrorCategory::Unavailable,
        ErrorCategory::Internal => TxnErrorCategory::Internal,
    }
}

fn txn_category(c: ErrorCategory) -> (r: TxnErrorCategory)
    ensures
        r == as_txn_category(c),
{
    match c {
        ErrorCategory::InvalidInput => TxnErrorCategory::InvalidInput,
        ErrorCategory::Conflict => TxnErrorCategory::Conflict,
        ErrorCategory::Timeout => TxnErrorCategory::Timeout,
        ErrorCategory::Backpressure => TxnErrorCategory::Backpressure,
        ErrorCategory::Unavailable => TxnErrorCategory::Unavailable,
        ErrorCategory::Internal => TxnErrorCategory::Internal,
    }
}

impl TxnError {
    /// The category of the error.
    pub open spec fn category_spec(self) -> TxnErrorCategory {
        match self {
            TxnError::InvalidKeySize(_, _)
            | TxnError::InvalidValueSize(_, _)
            | TxnError::InvalidQuorum { .. } => TxnErrorCategory::InvalidInput,
            TxnError::WriteWriteConflict => TxnErrorCategory::Conflict,
            TxnError::TxnTimeout => TxnErrorCategory::Timeout,
            TxnError::QuorumNotMet { .. } => TxnErrorCategory::Unavailable,
            TxnError::CorruptWal(_) => TxnErrorCategory::Internal,
            TxnError::Io(io) => as_txn_category(io_category(io.kind)),
        }
    }

    /// The text of the error.
    pub open spec fn message_spec(self) -> Seq<char> {
        match self {
            TxnError::Io(io) => "io error: "@ + io.message@,
            TxnError::InvalidKeySize(a, b) => "invalid key size: "@ + dec(a as int) + " (expected "@
                + dec(b as int) + ")"@,
            TxnError::InvalidValueSize(a, b) => "invalid value size: "@ + dec(a as int) + " (max "@
                + dec(b as int) + ")"@,
            TxnError::WriteWriteConflict => "write-write conflict"@,
            TxnError::CorruptWal(m) => "corrupt wal: "@ + m@,
            TxnError::QuorumNotMet { required, succeeded } => "quorum not met: required "@ + dec(
                required as int,
            ) + ", succeeded "@ + dec(succeeded as int),
            TxnError::InvalidQuorum { quorum, replicas } => "invalid quorum "@ + dec(quorum as int)
                + " for "@ + dec(replicas as int) + " replicas"@,
            TxnError::TxnTimeout => "transaction timed out"@,
        }
    }

    pub fn category(&self) -> (r: TxnErrorCategory)
        ensures
            r == self.category_spec(),
    {
        match self {
            TxnError::InvalidKeySize(_, _)
            | TxnError::InvalidValueSize(_, _)
            | TxnError::InvalidQuorum { .. } => TxnErrorCategory::InvalidInput,
            TxnError::WriteWriteConflict => TxnErrorCategory::Conflict,
            TxnError::TxnTimeout => TxnErrorCategory::Timeout,
            TxnError::QuorumNotMet { .. } => TxnErrorCategory::Unavailable,
            TxnError::CorruptWal(_) => TxnErrorCategory::Internal,
            TxnError::Io(io) => txn_category(io_error_category(io.kind)),
        }
    }

    /// Whether trying again may succeed.
    pub fn is_retryable(&self) -> (r: bool)
        ensures
            r == (self.category_spec() is Timeout || self.category_spec() is Backpressure
                || self.category_spec() is Unavailable || self.category_spec() is Conflict),
    {
        match self.category() {
            TxnErrorCategory::Timeout
            | TxnErrorCategory::Backpressure
            | TxnErrorCategory::Unavailable
            | TxnErrorCategory::Conflict => true,
            _ => false,
        }
    }

    /// The text of the error.
    pub fn message(&self) -> (r: String)
        ensures
            r@ == self.message_spec(),
    {
        match self {
            TxnError::Io(io) => String::from_str("io error: ").concat(io.message.as_str()),
            TxnError::InvalidKeySize(a, b) => size_message(
                "invalid key size: ",
                *a,
                " (expected ",
                *b,
            ),
            TxnError::InvalidValueSize(a, b) => size_message(
                "invalid value size: ",
                *a,
                " (max ",
                *b,
            ),
            TxnError::WriteWriteConflict => String::from_str("write-write conflict"),
            TxnError::CorruptWal(m) => String::from_str("corrupt wal: ").concat(m.as_str()),
            TxnError::QuorumNotMet { required, succeeded } => text_num2(
                "quorum not met: required ",
                *required as u64,
                ", succeeded ",
                *succeeded as u64,
            ),
            TxnError::InvalidQuorum { quorum, replicas } => text_num2(
                "invalid quorum ",
                *quorum as u64,
                " for ",
                *replicas as u64,
            ).concat(" replicas"),
            TxnError::TxnTimeout => String::from_str("transaction timed out"),
        }
    }
}

/// What an error is: a wrong size or quorum is the caller's, a conflict and a timeout are
/// what they say, a missed quorum is a matter of availability, and a damaged log is the
/// store's own.
pub proof fn law_error_categories(e: TxnError)
    ensures
        e is WriteWriteConflict <==> e.category_spec() is Conflict && !(e is Io),
        e is TxnTimeout <==> e.category_spec() is Timeout && !(e is Io),
        e is InvalidKeySize || e is InvalidValueSize || e is InvalidQuorum <==> e.category_spec()
            is InvalidInput && !(e is Io),
        e is QuorumNotMet <==> e.category_spec() is Unavailable && !(e is Io),
        e is CorruptWal <==> e.category_spec() is Internal && !(e is Io),
{
}

} // verus!
