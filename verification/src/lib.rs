//! A verified request-lifecycle manager for host-mediated HTTP fetches.
//!
//! A sandboxed caller issues outbound HTTP requests that a trusted host
//! executes on its behalf. This crate holds the three parts with real
//! invariants: a scope matcher that decides whether a URL is permitted, a
//! cookie jar that persists session cookies as a JSON document, and an
//! in-flight-request registry that lets a request be started, read in chunks,
//! and cancelled across independent invocations. The transport itself (TCP,
//! TLS, the HTTP wire protocol) is a collaborator driven by the embedding
//! program: it performs the network actions and hands the resulting events
//! (response headers, body chunks, end of stream, failures) to the registry.

use vstd::prelude::*;

pub mod codec;
pub mod cookies;
pub mod error;
pub mod registry;
pub mod scope;
pub mod text;

use crate::cookies::CookieJar;
use crate::cookies::CookieRecord;
use crate::cookies::absorbed_all;
use crate::error::HttpError;
use crate::registry::ReadStep;
use crate::registry::Registry;
use crate::scope::Scope;
use crate::scope::UrlParts;
use vstd::string::StrSliceExecFns;

verus! {

/// An HTTP method token: one or more ASCII capital letters.
pub open spec fn method_wf(s: Seq<char>) -> bool {
    s.len() > 0 && forall|i: int| 0 <= i < s.len() ==> 'A' <= #[trigger] s[i] && s[i] <= 'Z'
}

/// Decides `method_wf`.
fn method_ok(s: &str) -> (r: bool)
    ensures
        r == method_wf(s@),
{
    let n: usize = s.unicode_len();
    if n == 0 {
        return false;
    }
    let mut i: usize = 0;
    while i < n
        invariant
            n == s@.len(),
            i <= n,
            forall|j: int| 0 <= j < i ==> 'A' <= #[trigger] s@[j] && s@[j] <= 'Z',
        decreases n - i,
    {
        let c = s.get_char(i);
        if c < 'A' || c > 'Z' {
            assert(!('A' <= s@[i as int] && s@[i as int] <= 'Z'));
            return false;
        }
        i += 1;
    }
    true
}

/// A request that has been validated and constructed but not yet
/// dispatched. Owned exclusively by the caller between `fetch` and
/// `fetch_send`; nothing about it is in the registry yet.
pub struct PendingRequest {
    pub method: String,
    pub url: UrlParts,
    pub headers: Vec<(String, String)>,
    pub body: Option<Vec<u8>>,
    pub timeout_ms: Option<u64>,
    pub max_redirects: Option<u32>,
    pub attach_cookies: bool,
}

/// What the transport reported when the pending request was dispatched:
/// response headers arrived, the connection failed, or the per-request
/// timeout elapsed. The embedding program performs the dispatch and hands
/// the outcome in; the registry never sees a URL the scope refused.
pub enum TransportOutcome {
    Headers(u16, Vec<(String, String)>),
    NetworkFailure,
    TimedOut,
}

/// The shared context behind all command invocations: the allow-list
/// loaded at startup, the in-flight-request registry, and — when the
/// cookie capability was granted at construction — the shared cookie jar.
/// The embedding program guards `registry` and `jar` with two separate
/// locks; `scope` is read-only after load and needs none.
pub struct Http {
    pub scope: Scope,
    pub registry: Registry,
    pub jar: Option<CookieJar>,
}

impl Http {
    /// All three components are well formed.
    pub open spec fn wf(&self) -> bool {
        &&& self.scope.wf()
        &&& self.registry.wf()
        &&& (self.jar matches Some(j) ==> j.wf())
    }

    /// Builds the context: the scope comes from the host's configuration,
    /// the jar from the persisted store (or `None` when the cookie
    /// subsystem is absent — checked once here, not scattered through
    /// request handling).
    pub fn new(scope: Scope, jar: Option<CookieJar>) -> (r: Http)
        requires
            scope.wf(),
            jar matches Some(j) ==> j.wf(),
        ensures
            r.wf(),
            r.scope == scope,
            r.jar == jar,
            r.registry@ =~= Map::<u64, crate::registry::InFlight>::empty(),
    {
        Http { scope, registry: Registry::new(), jar }
    }

    /// Validates and constructs a request. The URL is held against the
    /// scope here, before any network work: a URL no pattern matches is
    /// `ScopeViolation`, and a malformed method is `ConfigurationError`.
    /// Pure with respect to the context.
    pub fn fetch(
        &self,
        method: String,
        url: UrlParts,
        headers: Vec<(String, String)>,
        body: Option<Vec<u8>>,
        timeout_ms: Option<u64>,
        max_redirects: Option<u32>,
        attach_cookies: bool,
    ) -> (r: Result<PendingRequest, HttpError>)
        ensures
            r is Ok <==> method_wf(method@) && self.scope.spec_permits(url),
            match r {
                Ok(p) => {
                    &&& p.method == method
                    &&& p.url == url
                    &&& p.headers == headers
                    &&& p.body == body
                    &&& p.timeout_ms == timeout_ms
                    &&& p.max_redirects == max_redirects
                    &&& p.attach_cookies == attach_cookies
                },
                Err(e) => {
                    &&& !method_wf(method@) ==> e == HttpError::ConfigurationError
                    &&& method_wf(method@) ==> e == HttpError::ScopeViolation
                },
            },
    {
        if !method_ok(method.as_str()) {
            return Err(HttpError::ConfigurationError);
        }
        if !self.scope.permits(&url) {
            return Err(HttpError::ScopeViolation);
        }
        Ok(PendingRequest { method, url, headers, body, timeout_ms, max_redirects, attach_cookies })
    }

    /// Dispatch step: re-validates the scope, then admits the transport's
    /// outcome. On response headers a fresh id is allocated, the entry
    /// stored, and the cookies the response set are absorbed into the jar
    /// immediately — whether or not the body is ever read. A failed
    /// dispatch allocates no id and changes nothing. The id space is a
    /// machine limit; `self.registry.can_allocate()` tells the caller.
    pub fn fetch_send(
        &mut self,
        pending: PendingRequest,
        outcome: TransportOutcome,
        set_cookies: Vec<CookieRecord>,
        now: u64,
    ) -> (r: Result<(u64, u16), HttpError>)
        requires
            old(self).wf(),
            old(self).registry.spec_can_allocate(),
        ensures
            final(self).wf(),
            final(self).scope == old(self).scope,
            !old(self).scope.spec_permits(pending.url) ==> r == Err::<(u64, u16), HttpError>(
                HttpError::ScopeViolation,
            ) && *final(self) == *old(self),
            old(self).scope.spec_permits(pending.url) ==> match outcome {
                TransportOutcome::NetworkFailure => r == Err::<(u64, u16), HttpError>(
                    HttpError::NetworkError,
                ) && *final(self) == *old(self),
                TransportOutcome::TimedOut => r == Err::<(u64, u16), HttpError>(
                    HttpError::TimeoutError,
                ) && *final(self) == *old(self),
                TransportOutcome::Headers(status, headers) => {
                    &&& r matches Ok(p) && p.0 == old(self).registry.spec_next_id() && p.1
                        == status
                    &&& final(self).registry.spec_next_id() == old(
                        self,
                    ).registry.spec_next_id() + 1
                    &&& !old(self).registry@.contains_key(old(self).registry.spec_next_id())
                    &&& final(self).registry@.contains_key(old(self).registry.spec_next_id())
                    &&& crate::registry::unchanged_except(
                        old(self).registry@,
                        final(self).registry@,
                        old(self).registry.spec_next_id(),
                    )
                    &&& {
                        let e = final(self).registry@[old(self).registry.spec_next_id()];
                        e.status == status && e.headers == headers && e.buf@ == Seq::<u8>::empty()
                            && e.consumed == 0 && !e.eof && !e.failed && e.last_activity == now
                    }
                    &&& match (old(self).jar, final(self).jar) {
                        (Some(j0), Some(j1)) => if pending.attach_cookies {
                            j1@ == absorbed_all(j0@, set_cookies@)
                        } else {
                            j1 == j0
                        },
                        (None, None) => true,
                        _ => false,
                    }
                },
            },
    {
        if !self.scope.permits(&pending.url) {
            return Err(HttpError::ScopeViolation);
        }
        match outcome {
            TransportOutcome::NetworkFailure => Err(HttpError::NetworkError),
            TransportOutcome::TimedOut => Err(HttpError::TimeoutError),
            TransportOutcome::Headers(status, headers) => {
                let id = self.registry.insert_response(status, headers, now);
                if pending.attach_cookies {
                    match &mut self.jar {
                        Some(j) => {
                            j.absorb(set_cookies);
                        },
                        None => {},
                    }
                }
                Ok((id, status))
            },
        }
    }

    /// Streaming read: the next chunk of the body of `id`, or what stands
    /// in its way (see `Registry::read_chunk` for the case-by-case
    /// contract this delegates to).
    pub fn fetch_read_body(&mut self, id: u64, max_bytes: usize, now: u64) -> (r: Result<
        ReadStep,
        HttpError,
    >)
        requires
            old(self).wf(),
        ensures
            final(self).wf(),
            final(self).scope == old(self).scope,
            final(self).jar == old(self).jar,
            final(self).registry.spec_next_id() == old(self).registry.spec_next_id(),
            !old(self).registry@.contains_key(id) ==> r == Err::<ReadStep, HttpError>(
                HttpError::UnknownRequestId,
            ) && final(self).registry == old(self).registry,
            old(self).registry@.contains_key(id) ==> {
                let e0 = old(self).registry@[id];
                if e0.buf@.len() > 0 {
                    &&& r matches Ok(ReadStep::Chunk(c)) && c@ == e0.buf@.subrange(
                        0,
                        crate::registry::spec_chunk_len(e0, max_bytes),
                    )
                    &&& final(self).registry@.contains_key(id)
                    &&& crate::registry::unchanged_except(
                        old(self).registry@,
                        final(self).registry@,
                        id,
                    )
                    &&& crate::registry::entry_after_read(
                        e0,
                        final(self).registry@[id],
                        crate::registry::spec_chunk_len(e0, max_bytes),
                        now,
                    )
                } else if e0.failed {
                    &&& r == Err::<ReadStep, HttpError>(HttpError::StreamError)
                    &&& final(self).registry@ =~= old(self).registry@.remove(id)
                } else if e0.eof {
                    &&& r == Ok::<ReadStep, HttpError>(ReadStep::EndOfBody)
                    &&& final(self).registry@ =~= old(self).registry@.remove(id)
                } else {
                    &&& r == Ok::<ReadStep, HttpError>(ReadStep::Pending)
                    &&& final(self).registry == old(self).registry
                }
            },
    {
        self.registry.read_chunk(id, max_bytes, now)
    }

    /// Cancellation: evicts the entry for `id` if it is present, a no-op
    /// otherwise — idempotent, never an error. The embedding program
    /// aborts the transport work for `id` alongside this call; a reader
    /// blocked on the transport then returns promptly and finds
    /// `UnknownRequestId` here rather than the remaining body.
    pub fn fetch_cancel(&mut self, id: u64)
        requires
            old(self).wf(),
        ensures
            final(self).wf(),
            final(self).scope == old(self).scope,
            final(self).jar == old(self).jar,
            final(self).registry.spec_next_id() == old(self).registry.spec_next_id(),
            final(self).registry@ =~= old(self).registry@.remove(id),
    {
        self.registry.cancel(id)
    }
}

} // verus!
