//! The closed set of message shapes that crosses this boundary layer: what
//! a transport source can hand in, what the dispatcher decides to do with
//! it, what forwarding to the execution engine came to, and what goes back
//! on the wire. The operation payload is opaque to this layer and is only
//! moved through, never read.

use vstd::prelude::*;

verus! {

/// What one inbound envelope can be: a contract operation, a delegate
/// operation, an explicit disconnect, or anything this boundary does not
/// handle.
pub enum EnvelopeKind<P> {
    ContractOp { payload: P },
    DelegateOp { payload: P },
    Disconnect { cause: Option<String> },
    Unsupported,
}

/// An inbound request envelope: the raw operation payload, the session it
/// came from, an optional authorization token, and optionally a resource
/// identity attested out of band by the transport.
pub struct RequestEnvelope<P> {
    pub session: u64,
    pub token: Option<String>,
    pub attested: Option<String>,
    pub kind: EnvelopeKind<P>,
}

/// What a transport source can produce: a new logical session, carrying an
/// optional (token, resource) pair established during the transport-level
/// handshake, or a request envelope from an admitted session.
pub enum SourceEvent<P> {
    NewConnection { pre_bound: Option<(String, String)> },
    Request { envelope: RequestEnvelope<P> },
}

/// What the dispatcher decides to do with one event. The loop around the
/// dispatcher carries the action out against the same transport source
/// that produced the event.
pub enum DispatchAction<P> {
    /// Answer a new connection with its fresh session identity.
    AssignSession { session: u64 },
    /// Forward a contract operation to the execution engine.
    ForwardContract { session: u64, payload: P },
    /// Forward a delegate operation, together with the resource the
    /// session is attested for, if any.
    ForwardDelegate { session: u64, payload: P, attested: Option<String> },
    /// Answer an unsupported envelope locally with a request error.
    ReplyUnsupported { session: u64 },
    /// A disconnect is swallowed: no reply is sent for it.
    NoReply,
}

/// A failure the execution engine attributes to the request itself, or the
/// locally raised refusal of an unsupported envelope.
pub enum RequestError {
    /// The request was malformed.
    Malformed { detail: String },
    /// The operation was denied.
    Denied { detail: String },
    /// The operation targets a resource that does not exist.
    NotFound { detail: String },
    /// The envelope is of a kind this boundary does not handle.
    Unsupported,
}

/// What forwarding a request to the execution engine came to.
pub enum EngineOutcome<P> {
    /// The engine produced a result payload.
    Success { payload: P },
    /// The engine found the request itself invalid, denied, or aimed at a
    /// missing resource.
    RequestFailure { error: RequestError },
    /// Anything else went wrong downstream.
    InternalFailure { cause: String },
}

/// The wire-level result delivered back on the originating transport.
pub enum WireReply<P> {
    /// The successful result payload.
    Delivered { payload: P },
    RequestError { error: RequestError },
    /// An opaque internal failure: only a human-readable summary leaks out.
    Unhandled { cause: String },
}

/// A reply routed back to the originating transport, together with what,
/// if anything, must be logged at error severity.
pub struct RoutedReply<P> {
    pub reply: WireReply<P>,
    pub log_error: Option<String>,
}

/// How many replies carrying out an action produces on the originating
/// transport: none for a swallowed disconnect, none for a session
/// assignment (which goes back on the connection's own reply channel), and
/// exactly one for everything else — a forwarded operation yields exactly
/// one reply once its outcome is mapped.
pub open spec fn replies_of_action<P>(a: DispatchAction<P>) -> nat {
    match a {
        DispatchAction::NoReply => 0,
        DispatchAction::AssignSession { .. } => 0,
        _ => 1,
    }
}

} // verus!
