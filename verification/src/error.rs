//! Errors surfaced to callers waiting on a single request or query.
//! Transport-transient failures (filtered or undecodable datagrams) are
//! dropped silently and never appear here.

use vstd::prelude::*;

verus! {

/// A failure of one outbound request, delivered only to the caller that
/// awaited it; the service itself survives every variant.
#[derive(Debug, Clone, PartialEq)]
pub enum RequestError {
    /// The request hit its deadline before a matching response arrived.
    Timeout,
    /// The service loop has not been started.
    ServiceNotStarted,
    /// The request addressed our own identifier.
    SelfRequest,
    /// The channel to the session layer failed.
    ChannelFailed(String),
    /// The peer's record could not be used.
    InvalidEnr(String),
    /// The remote's record failed validation.
    InvalidRemoteEnr,
    /// The remote sent a packet that could not be handled.
    InvalidRemotePacket,
    /// The session layer could not encrypt the request.
    EncryptionFailed(String),
    /// The destination address was malformed.
    InvalidMultiaddr(String),
}

/// A failure of one iterative lookup. A lookup that merely times out
/// returns its partial result set instead of an error.
#[derive(Debug, Clone, PartialEq)]
pub enum QueryError {
    /// The service loop has not been started.
    ServiceNotStarted,
    /// The channel to the session layer failed.
    ChannelFailed(String),
    /// A peer's record could not be used.
    InvalidEnr(String),
    /// The session layer could not encrypt a lookup request.
    EncryptionFailed(String),
    /// A destination address was malformed.
    InvalidMultiaddr(String),
}

} // verus!
