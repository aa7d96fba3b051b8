use vstd::prelude::*;

verus! {

/// Failure taxonomy of the request-lifecycle manager.
///
/// Every operation of the command surface reports its failures through this
/// type; none of these conditions leaves the registry or the cookie jar in an
/// inconsistent state.
#[derive(Clone, Copy, Debug, PartialEq, Eq, Structural)]
pub enum HttpError {
    /// A malformed allow-list pattern was found while loading the scope.
    ConfigurationError,
    /// The requested URL matches no allow-list pattern.
    ScopeViolation,
    /// The transport reported a connection-level failure.
    NetworkError,
    /// The transport gave up waiting for the peer.
    TimeoutError,
    /// The transport failed mid-stream while the body was being read.
    StreamError,
    /// The request identifier is absent from the registry: the request
    /// completed, was cancelled, was evicted, or never existed. Recoverable.
    UnknownRequestId,
    /// The persisted cookie file exists but is not a well-formed jar document.
    CorruptCookieStore,
}

} // verus!
