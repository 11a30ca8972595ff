//! The value types that cross the call boundary, and the two error taxonomies:
//! fatal protocol violations and recoverable capability-surface errors.

use vstd::prelude::*;

verus! {

/// A fatal condition: the guest or its allocator broke the calling
/// convention, so the current call must be aborted rather than answered.
/// Never encoded into guest memory as data.
#[derive(Clone, Copy, Debug, PartialEq, Eq, Structural)]
pub enum AbiError {
    /// The guest exports no linear memory.
    MemoryNotFound,
    /// An access of `(offset, length)` overflows or exceeds the region size.
    BufferTooSmall,
    /// Bytes that must be a string are not valid UTF-8.
    Utf8Error,
    /// The guest exports no allocation function.
    MissingExport,
    /// The guest's allocation export does not have the expected signature.
    TypeMismatch,
    /// A value's size does not fit the 32-bit wire format.
    SizeOverflow,
}

/// An error surfaced by the host capability surface as a normal result. It is
/// recoverable from the adapter's point of view: it is encoded into the
/// tagged-result shape and handed back to the guest as data.
#[derive(Clone, Debug, PartialEq, Eq)]
pub enum HttpError {
    InvalidUrl(String),
    TimeoutError(String),
    ProtocolError(String),
    UnexpectedError(String),
}

impl HttpError {
    /// The fixed discriminant each error kind encodes to.
    pub open spec fn tag_spec(&self) -> u32 {
        match self {
            HttpError::InvalidUrl(_) => 0,
            HttpError::TimeoutError(_) => 1,
            HttpError::ProtocolError(_) => 2,
            HttpError::UnexpectedError(_) => 3,
        }
    }

    /// The message carried by the error, whatever its kind.
    pub open spec fn message_spec(&self) -> Seq<char> {
        match self {
            HttpError::InvalidUrl(m) => m@,
            HttpError::TimeoutError(m) => m@,
            HttpError::ProtocolError(m) => m@,
            HttpError::UnexpectedError(m) => m@,
        }
    }

    pub fn tag(&self) -> (r: u32)
        ensures
            r == self.tag_spec(),
    {
        match self {
            HttpError::InvalidUrl(_) => 0,
            HttpError::TimeoutError(_) => 1,
            HttpError::ProtocolError(_) => 2,
            HttpError::UnexpectedError(_) => 3,
        }
    }

    pub fn message(&self) -> (r: &String)
        ensures
            r@ == self.message_spec(),
    {
        match self {
            HttpError::InvalidUrl(m) => m,
            HttpError::TimeoutError(m) => m,
            HttpError::ProtocolError(m) => m,
            HttpError::UnexpectedError(m) => m,
        }
    }
}

/// An HTTP method: a closed enumeration with a reserved open arm whose
/// payload is a string read inline from guest memory.
#[derive(Clone, Debug, PartialEq, Eq)]
pub enum Method {
    Get,
    Head,
    Post,
    Put,
    Delete,
    Connect,
    Options,
    Trace,
    Patch,
    Other(String),
}

/// A URL scheme, with the same reserved open arm as [`Method`].
#[derive(Clone, Debug, PartialEq, Eq)]
pub enum Scheme {
    Http,
    Https,
    Other(String),
}

/// The status a stream reports alongside each read or write.
#[derive(Clone, Copy, Debug, PartialEq, Eq, Structural)]
pub enum StreamStatus {
    Open,
    Ended,
}

impl StreamStatus {
    /// The binary discriminant the status encodes to.
    pub open spec fn code_spec(&self) -> u32 {
        match self {
            StreamStatus::Open => 0,
            StreamStatus::Ended => 1,
        }
    }

    pub fn code(&self) -> (r: u32)
        ensures
            r == self.code_spec(),
    {
        match self {
            StreamStatus::Open => 0,
            StreamStatus::Ended => 1,
        }
    }
}

/// Per-request timeout options, each present only when its flag word is
/// exactly 1.
#[derive(Clone, Copy, Debug, PartialEq, Eq)]
pub struct RequestOptions {
    pub connect_timeout_ms: Option<u32>,
    pub first_byte_timeout_ms: Option<u32>,
    pub between_bytes_timeout_ms: Option<u32>,
}

/// The semantic arguments of a new-outgoing-request call, decoded out of its
/// fourteen-integer argument tuple.
#[derive(Clone, Debug, PartialEq, Eq)]
pub struct RequestParts {
    pub method: Method,
    pub path: Option<String>,
    /// The scheme handed to the capability surface; when the guest marks it
    /// absent it defaults to HTTPS rather than staying empty.
    pub scheme: Scheme,
    pub authority: Option<String>,
    /// Opaque handle of the fields table holding the request headers.
    pub headers: u32,
}

} // verus!
