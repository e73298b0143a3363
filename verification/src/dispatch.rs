//! The request dispatcher: admission of new sessions, classification of
//! inbound envelopes, resolution of delegate attestation through the
//! session registry, mapping of execution outcomes to wire results, and the
//! fair round-robin choice among ready transport sources.

use crate::messages::{
    DispatchAction, EngineOutcome, EnvelopeKind, RequestEnvelope, RequestError, RoutedReply,
    SourceEvent, WireReply, replies_of_action,
};
use crate::registry::{
    RegView, SessionRegistry, bind_seq, lemma_bind_seq_elems, lemma_lookup_bind_same,
    lemma_without_session_elems, spec_lookup, without_session,
};
use vstd::prelude::*;

verus! {

/// The characters of an optional string.
pub open spec fn opt_view(o: Option<String>) -> Option<Seq<char>> {
    match o {
        Some(s) => Some(s@),
        None => None,
    }
}

/// The resource a delegate operation is attested for: a carried token is
/// resolved through the registry, where a missing binding means no attested
/// resource, never an error; without a token, the resource the transport
/// attested out of band stands, if any.
pub open spec fn spec_delegate_resource(
    reg: RegView,
    token: Option<String>,
    attested: Option<String>,
) -> Option<Seq<char>> {
    match token {
        Some(t) => match spec_lookup(reg, t@) {
            Some(p) => Some(p.0),
            None => None,
        },
        None => opt_view(attested),
    }
}

/// The dispatcher's own state: the session registry it exclusively owns and
/// the next never-yet-issued session identity.
pub struct Dispatcher {
    pub registry: SessionRegistry,
    pub next_session: u64,
}

impl Dispatcher {
    /// The registry's tokens are unique, and every bound session identity
    /// was issued before the next fresh one will be.
    pub open spec fn wf(self) -> bool {
        &&& self.registry.wf()
        &&& forall|i: int|
            0 <= i < self.registry@.len() ==> (#[trigger] self.registry@[i]).2 < self.next_session
    }

    /// A dispatcher with no sessions admitted and nothing bound.
    pub fn new() -> (d: Dispatcher)
        ensures
            d.wf(),
            d.registry@ == Seq::<(Seq<char>, Seq<char>, u64)>::empty(),
            d.next_session == 0,
    {
        Dispatcher { registry: SessionRegistry::new(), next_session: 0 }
    }

    /// Admits a new logical session: assigns a fresh, never yet issued
    /// session identity, and, when the transport attested a (token,
    /// resource) pair during its own handshake, binds it before the
    /// identity becomes visible — no request of the session can observe the
    /// binding as absent.
    pub fn admit_connection(&mut self, pre_bound: Option<(String, String)>) -> (session: u64)
        requires
            old(self).wf(),
            old(self).next_session < u64::MAX,
        ensures
            final(self).wf(),
            session == old(self).next_session,
            final(self).next_session == old(self).next_session + 1,
            match pre_bound {
                Some(tr) => final(self).registry@ == bind_seq(
                    old(self).registry@,
                    tr.0@,
                    tr.1@,
                    session,
                ) && spec_lookup(final(self).registry@, tr.0@) == Some((tr.1@, session)),
                None => final(self).registry@ == old(self).registry@,
            },
    {
        let session = self.next_session;
        self.next_session = self.next_session + 1;
        match pre_bound {
            Some(tr) => {
                let (t, r) = tr;
                let ghost v0 = self.registry@;
                self.registry.bind(t, r, session);
                proof {
                    lemma_lookup_bind_same(v0, t@, r@, session);
                    lemma_bind_seq_elems(v0, t@, r@, session);
                    assert forall|i: int|
                        0 <= i < self.registry@.len() implies (#[trigger] self.registry@[i]).2
                        < self.next_session by {
                        if self.registry@[i] != (t@, r@, session) {
                            assert(v0.contains(self.registry@[i]));
                            let j = choose|j: int| 0 <= j < v0.len() && v0[j] == self.registry@[i];
                            assert(v0[j].2 < old(self).next_session);
                        }
                    }
                }
            },
            None => {},
        }
        session
    }

    /// Handles one event from a transport source and decides the action the
    /// surrounding loop carries out, always against the source that
    /// produced the event. A contract operation is forwarded as it stands;
    /// a delegate operation is forwarded with the resource its session is
    /// attested for; a disconnect tears the session's bindings down and is
    /// swallowed without a reply, its cause at most logged; an unsupported
    /// envelope is answered locally. Every request envelope yields at most
    /// one reply, and a disconnect yields none.
    pub fn handle_event<P>(&mut self, ev: SourceEvent<P>) -> (a: DispatchAction<P>)
        requires
            old(self).wf(),
            ev is NewConnection ==> old(self).next_session < u64::MAX,
        ensures
            final(self).wf(),
            match ev {
                SourceEvent::NewConnection { pre_bound } => {
                    &&& a == (DispatchAction::AssignSession::<P> {
                        session: old(self).next_session,
                    })
                    &&& final(self).next_session == old(self).next_session + 1
                    &&& match pre_bound {
                        Some(tr) => final(self).registry@ == bind_seq(
                            old(self).registry@,
                            tr.0@,
                            tr.1@,
                            old(self).next_session,
                        ),
                        None => final(self).registry@ == old(self).registry@,
                    }
                },
                SourceEvent::Request { envelope } => match envelope.kind {
                    EnvelopeKind::ContractOp { payload } => {
                        &&& *final(self) == *old(self)
                        &&& a == (DispatchAction::ForwardContract {
                            session: envelope.session,
                            payload,
                        })
                    },
                    EnvelopeKind::DelegateOp { payload } => {
                        &&& *final(self) == *old(self)
                        &&& (a matches DispatchAction::ForwardDelegate {
                            session,
                            payload: p,
                            attested,
                        } && session == envelope.session && p == payload && opt_view(attested)
                            == spec_delegate_resource(
                            old(self).registry@,
                            envelope.token,
                            envelope.attested,
                        ))
                    },
                    EnvelopeKind::Disconnect { .. } => {
                        &&& a is NoReply
                        &&& final(self).registry@ == without_session(
                            old(self).registry@,
                            envelope.session,
                        )
                        &&& final(self).next_session == old(self).next_session
                    },
                    EnvelopeKind::Unsupported => {
                        &&& *final(self) == *old(self)
                        &&& a == (DispatchAction::ReplyUnsupported::<P> {
                            session: envelope.session,
                        })
                    },
                },
            },
            ev matches SourceEvent::Request { envelope } ==> replies_of_action(a) == (
            if envelope.kind is Disconnect {
                0nat
            } else {
                1nat
            }),
    {
        match ev {
            SourceEvent::NewConnection { pre_bound } => {
                let session = self.admit_connection(pre_bound);
                DispatchAction::AssignSession { session }
            },
            SourceEvent::Request { envelope } => {
                let RequestEnvelope { session, token, attested, kind } = envelope;
                match kind {
                    EnvelopeKind::ContractOp { payload } => DispatchAction::ForwardContract {
                        session,
                        payload,
                    },
                    EnvelopeKind::DelegateOp { payload } => {
                        let attested_resource = match token {
                            Some(t) => self.registry.resolve(&t),
                            None => attested,
                        };
                        DispatchAction::ForwardDelegate {
                            session,
                            payload,
                            attested: attested_resource,
                        }
                    },
                    EnvelopeKind::Disconnect { .. } => {
                        let ghost v0 = self.registry@;
                        self.registry.unbind_by_session(session);
                        proof {
                            lemma_without_session_elems(v0, session);
                            assert forall|i: int|
                                0 <= i < self.registry@.len() implies (
                            #[trigger] self.registry@[i]).2 < self.next_session by {
                                assert(v0.contains(self.registry@[i]));
                                let j = choose|j: int|
                                    0 <= j < v0.len() && v0[j] == self.registry@[i];
                                assert(v0[j].2 < self.next_session);
                            }
                        }
                        DispatchAction::NoReply
                    },
                    EnvelopeKind::Unsupported => DispatchAction::ReplyUnsupported { session },
                }
            },
        }
    }
}

/// Maps the outcome of a forwarded request to the wire-level result for
/// the originating transport. A success delivers its payload. A failure
/// the engine attributes to the request itself is surfaced as a structured
/// request error and is never logged as a server fault. Any other failure
/// is logged at error severity with its full cause, and is surfaced only
/// as an opaque unhandled failure carrying a human-readable summary.
pub fn map_outcome<P>(outcome: EngineOutcome<P>) -> (r: RoutedReply<P>)
    ensures
        match outcome {
            EngineOutcome::Success { payload } => r.reply == (WireReply::Delivered { payload })
                && r.log_error is None,
            EngineOutcome::RequestFailure { error } => r.reply == (WireReply::RequestError::<P> {
                error,
            }) && r.log_error is None,
            EngineOutcome::InternalFailure { cause } => r.reply == (WireReply::Unhandled::<P> {
                cause,
            }) && r.log_error == Some(cause),
        },
{
    match outcome {
        EngineOutcome::Success { payload } => RoutedReply {
            reply: WireReply::Delivered { payload },
            log_error: None,
        },
        EngineOutcome::RequestFailure { error } => RoutedReply {
            reply: WireReply::RequestError { error },
            log_error: None,
        },
        EngineOutcome::InternalFailure { cause } => {
            let summary = cause.clone();
            RoutedReply { reply: WireReply::Unhandled { cause }, log_error: Some(summary) }
        },
    }
}

/// The outcome an unsupported envelope is answered with: a structured
/// request error raised locally, without contacting the execution engine.
pub fn unsupported_outcome<P>() -> (o: EngineOutcome<P>)
    ensures
        o == (EngineOutcome::RequestFailure::<P> { error: RequestError::Unsupported }),
{
    EngineOutcome::RequestFailure { error: RequestError::Unsupported }
}

/// How many steps a round-robin scan that starts right after slot `prev`
/// takes to reach slot `i`, among `n` slots.
pub open spec fn rr_dist(prev: int, i: int, n: int) -> int {
    if i > prev {
        i - prev - 1
    } else {
        i - prev - 1 + n
    }
}

/// Picks the transport source to service next: the first ready source in
/// round-robin order after the one serviced last. A ready source is never
/// skipped in favour of one further along the rotation, so no source can
/// be starved while another is always ready.
pub fn pick_source(prev: usize, ready: &Vec<bool>) -> (r: Option<usize>)
    requires
        prev < ready@.len(),
    ensures
        match r {
            Some(i) => i < ready@.len() && ready@[i as int] && forall|j: int|
                0 <= j < ready@.len() && ready@[j] ==> rr_dist(
                    prev as int,
                    i as int,
                    ready@.len() as int,
                ) <= rr_dist(prev as int, j, ready@.len() as int),
            None => forall|j: int| 0 <= j < ready@.len() ==> !ready@[j],
        },
{
    let n = ready.len();
    let mut k: usize = 0;
    let mut idx: usize = if prev + 1 == n {
        0
    } else {
        prev + 1
    };
    while k < n
        invariant
            0 <= k <= n,
            n == ready@.len(),
            prev < n,
            idx < n,
            k < n ==> rr_dist(prev as int, idx as int, n as int) == k,
            forall|j: int|
                0 <= j < n && ready@[j] ==> rr_dist(prev as int, j, n as int) >= k,
        decreases n - k,
    {
        if ready[idx] {
            return Some(idx);
        }
        proof {
            assert forall|j: int|
                0 <= j < n && ready@[j] implies rr_dist(prev as int, j, n as int) >= k + 1 by {
                if rr_dist(prev as int, j, n as int) == k {
                    assert(j == idx as int);
                }
            }
        }
        idx = if idx + 1 == n {
            0
        } else {
            idx + 1
        };
        k += 1;
    }
    proof {
        assert forall|j: int| 0 <= j < n implies !ready@[j] by {
            assert(rr_dist(prev as int, j, n as int) < n);
        }
    }
    None
}

/// Fair progress of the rotation: when a ready source `i` is not the one
/// picked, the pick strictly shrinks the rotation distance to `i`. A source
/// that stays ready is therefore serviced within as many picks as there are
/// sources.
pub proof fn lemma_rr_progress(prev: int, ready: Seq<bool>, picked: int, i: int)
    requires
        0 <= prev < ready.len(),
        0 <= i < ready.len(),
        0 <= picked < ready.len(),
        ready[i],
        ready[picked],
        forall|j: int|
            0 <= j < ready.len() && ready[j] ==> rr_dist(prev, picked, ready.len() as int)
                <= rr_dist(prev, j, ready.len() as int),
        picked != i,
    ensures
        rr_dist(picked, i, ready.len() as int) < rr_dist(prev, i, ready.len() as int),
{
    let n = ready.len() as int;
    let dp = rr_dist(prev, picked, n);
    let di = rr_dist(prev, i, n);
    let dpi = rr_dist(picked, i, n);
    assert(dp <= di);
    assert(dp != di);
    assert(dpi == di - dp - 1);
}

} // verus!
