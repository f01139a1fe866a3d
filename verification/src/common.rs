//! Sizes, errors and the page type shared by the whole crate.
use vstd::prelude::*;

use bytes::Bytes;
use vstd::string::*;

use crate::text::{dec, join_num};

verus! {

/// Size of a page in bytes.
pub const PAGE_SIZE: usize = 16384;

/// Size of a row key in bytes.
pub const KEY_SIZE: usize = 16;

/// Size of a row value in bytes.
pub const VALUE_SIZE: usize = 1024;

pub type PageId = u64;

pub type Page = Bytes;

pub type Value = Vec<u8>;

pub type Result<T> = std::result::Result<T, Error>;

/// `bytes::Bytes`: an immutable byte string with cheap clones.
#[verifier::external_type_specification]
#[verifier::external_body]
pub struct ExBytes(bytes::Bytes);

/// The bytes that a `Bytes` holds.
pub uninterp spec fn bytes_view(b: bytes::Bytes) -> Seq<u8>;

/// `Bytes::from(Vec<u8>)`: the result holds the vector's bytes.
#[verifier::external_body]
pub(crate) fn page_from_vec(v: Vec<u8>) -> (r: Page)
    ensures
        bytes_view(r) == v@,
{
    Bytes::from(v)
}

/// `Bytes::deref`: the bytes as a slice.
#[verifier::external_body]
pub(crate) fn page_bytes(p: &Page) -> (r: &[u8])
    ensures
        r@ == bytes_view(*p),
{
    &p[..]
}

/// `Bytes::slice`: the bytes `[i, j)`. The outside function panics when the
/// range is not inside the buffer.
#[verifier::external_body]
pub(crate) fn page_slice(p: &Page, i: usize, j: usize) -> (r: Bytes)
    requires
        i <= j <= bytes_view(*p).len(),
    ensures
        bytes_view(r) == bytes_view(*p).subrange(i as int, j as int),
{
    p.slice(i..j)
}

/// `Bytes::clone`: another handle on the same bytes.
pub assume_specification[ <bytes::Bytes as Clone>::clone ](b: &bytes::Bytes) -> (r: bytes::Bytes)
    ensures
        bytes_view(r) == bytes_view(*b),
;

/// What went wrong in an operation outside the library, or in the arguments
/// of one of its own.
#[derive(Debug, Clone, Copy, PartialEq, Eq, Structural)]
pub enum IoErrorKind {
    NotFound,
    PermissionDenied,
    ConnectionRefused,
    ConnectionReset,
    ConnectionAborted,
    NotConnected,
    AddrInUse,
    AddrNotAvailable,
    NetworkDown,
    NetworkUnreachable,
    HostUnreachable,
    BrokenPipe,
    AlreadyExists,
    WouldBlock,
    InvalidInput,
    InvalidData,
    TimedOut,
    Interrupted,
    UnexpectedEof,
    Other,
}

/// An error kind with its message.
#[derive(Debug, Clone)]
pub struct IoError {
    pub kind: IoErrorKind,
    pub message: String,
}

impl IoError {
    pub fn new(kind: IoErrorKind, message: &str) -> (r: IoError)
        ensures
            r.kind == kind,
            r.message@ == message@,
    {
        IoError { kind, message: String::from_str(message) }
    }

    pub fn kind(&self) -> (r: IoErrorKind)
        ensures
            r == self.kind,
    {
        self.kind
    }
}

#[derive(Debug, Clone, Copy, PartialEq, Eq, Structural)]
pub enum ErrorCategory {
    InvalidInput,
    Conflict,
    Timeout,
    Backpressure,
    Unavailable,
    Internal,
}

#[derive(Debug, Clone)]
pub enum Error {
    Io(IoError),
    Capnp(String),
    InvalidPageSize(usize, usize),
    InvalidValueSize(usize, usize),
    InvalidKeySize(usize, usize),
    InMemoryPageMissing(u64),
    TxnTimeout,
}

/// `e` is an I/O error of the given kind with the given message.
pub open spec fn is_io_error(e: Error, kind: IoErrorKind, message: Seq<char>) -> bool {
    e matches Error::Io(io) && io.kind == kind && io.message@ == message
}

/// The category that an I/O error kind falls into.
pub open spec fn io_category(kind: IoErrorKind) -> ErrorCategory {
    match kind {
        IoErrorKind::InvalidInput | IoErrorKind::AlreadyExists | IoErrorKind::NotFound =>
            ErrorCategory::InvalidInput,
        IoErrorKind::WouldBlock => ErrorCategory::Backpressure,
        IoErrorKind::TimedOut => ErrorCategory::Timeout,
        IoErrorKind::PermissionDenied
        | IoErrorKind::InvalidData
        | IoErrorKind::UnexpectedEof
        | IoErrorKind::Other => ErrorCategory::Internal,
        _ => ErrorCategory::Unavailable,
    }
}

impl Error {
    /// The category of the error.
    pub open spec fn category_spec(self) -> ErrorCategory {
        match self {
            Error::InvalidPageSize(_, _)
            | Error::InvalidValueSize(_, _)
            | Error::InvalidKeySize(_, _) => ErrorCategory::InvalidInput,
            Error::TxnTimeout => ErrorCategory::Timeout,
            Error::InMemoryPageMissing(_) => ErrorCategory::Internal,
            Error::Capnp(_) => ErrorCategory::Unavailable,
            Error::Io(io) => io_category(io.kind),
        }
    }

    /// Whether trying again may succeed.
    pub open spec fn retryable_spec(self) -> bool {
        self.category_spec() is Timeout || self.category_spec() is Backpressure
            || self.category_spec() is Unavailable
    }

    /// The text of the error.
    pub open spec fn message_spec(self) -> Seq<char> {
        match self {
            Error::Io(io) => "io error: "@ + io.message@,
            Error::Capnp(m) => "capnp error: "@ + m@,
            Error::InvalidPageSize(a, b) => "invalid page size: "@ + dec(a as int) + " (expected "@
                + dec(b as int) + ")"@,
            Error::InvalidValueSize(a, b) => "invalid value size: "@ + dec(a as int) + " (max "@
                + dec(b as int) + ")"@,
            Error::InvalidKeySize(a, b) => "invalid key size: "@ + dec(a as int) + " (expected "@
                + dec(b as int) + ")"@,
            Error::InMemoryPageMissing(id) => "in-memory page missing for page_id "@ + dec(
                id as int,
            ),
            Error::TxnTimeout => "transaction timed out"@,
        }
    }

    pub fn category(&self) -> (r: ErrorCategory)
        ensures
            r == self.category_spec(),
    {
        match self {
            Error::InvalidPageSize(_, _)
            | Error::InvalidValueSize(_, _)
            | Error::InvalidKeySize(_, _) => ErrorCategory::InvalidInput,
            Error::TxnTimeout => ErrorCategory::Timeout,
            Error::InMemoryPageMissing(_) => ErrorCategory::Internal,
            Error::Capnp(_) => ErrorCategory::Unavailable,
            Error::Io(io) => io_error_category(io.kind),
        }
    }

    pub fn is_retryable(&self) -> (r: bool)
        ensures
            r == self.retryable_spec(),
    {
        match self.category() {
            ErrorCategory::Timeout
            | ErrorCategory::Backpressure
            | ErrorCategory::Unavailable => true,
            _ => false,
        }
    }

    /// The text of the error.
    pub fn message(&self) -> (r: String)
        ensures
            r@ == self.message_spec(),
    {
        match self {
            Error::Io(io) => String::from_str("io error: ").concat(io.message.as_str()),
            Error::Capnp(m) => String::from_str("capnp error: ").concat(m.as_str()),
            Error::InvalidPageSize(a, b) => size_message(
                "invalid page size: ",
                *a,
                " (expected ",
                *b,
            ),
            Error::InvalidValueSize(a, b) => size_message(
                "invalid value size: ",
                *a,
                " (max ",
                *b,
            ),
            Error::InvalidKeySize(a, b) => size_message(
                "invalid key size: ",
                *a,
                " (expected ",
                *b,
            ),
            Error::InMemoryPageMissing(id) => join_num("in-memory page missing for page_id ", *id),
            Error::TxnTimeout => String::from_str("transaction timed out"),
        }
    }
}

/// `head a mid b )`.
pub(crate) fn size_message(head: &str, a: usize, mid: &str, b: usize) -> (r: String)
    ensures
        r@ == head@ + dec(a as int) + mid@ + dec(b as int) + ")"@,
{
    let mut s = join_num(head, a as u64);
    s.append(mid);
    let d = join_num("", b as u64);
    proof {
        reveal_strlit("");
        assert(d@ =~= dec(b as int));
    }
    s.append(d.as_str());
    s.append(")");
    s
}

/// The category of an I/O error kind.
pub fn io_error_category(kind: IoErrorKind) -> (r: ErrorCategory)
    ensures
        r == io_category(kind),
{
    match kind {
        IoErrorKind::InvalidInput | IoErrorKind::AlreadyExists | IoErrorKind::NotFound =>
            ErrorCategory::InvalidInput,
        IoErrorKind::WouldBlock => ErrorCategory::Backpressure,
        IoErrorKind::TimedOut => ErrorCategory::Timeout,
        IoErrorKind::PermissionDenied
        | IoErrorKind::InvalidData
        | IoErrorKind::UnexpectedEof
        | IoErrorKind::Other => ErrorCategory::Internal,
        _ => ErrorCategory::Unavailable,
    }
}

/// An I/O error of the given kind with the given message.
pub fn io_error(kind: IoErrorKind, message: &str) -> (r: Error)
    ensures
        is_io_error(r, kind, message@),
{
    Error::Io(IoError::new(kind, message))
}

/// Trying again may help exactly after a timeout, after backpressure, and after an error
/// of the connection; not after a wrong request, nor after one that damaged or missing
/// data or a missing right caused.
pub proof fn law_what_is_retryable(e: Error)
    ensures
        e.retryable_spec() <==> match e {
            Error::TxnTimeout | Error::Capnp(_) => true,
            Error::Io(io) => !(io.kind is InvalidInput || io.kind is AlreadyExists || io.kind
                is NotFound || io.kind is PermissionDenied || io.kind is InvalidData || io.kind
                is UnexpectedEof || io.kind is Other),
            _ => false,
        },
        e.category_spec() is Backpressure <==> (e matches Error::Io(io) && io.kind is WouldBlock),
        e.category_spec() is Timeout <==> e is TxnTimeout || (e matches Error::Io(io) && io.kind
            is TimedOut),
        e.category_spec() is InvalidInput <==> e is InvalidPageSize || e is InvalidValueSize || e
            is InvalidKeySize || (e matches Error::Io(io) && (io.kind is InvalidInput || io.kind
            is AlreadyExists || io.kind is NotFound)),
        !(e.category_spec() is Conflict),
{
}

} // verus!
