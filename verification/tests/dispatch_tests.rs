use gateway_core::dispatch::{map_outcome, unsupported_outcome, Dispatcher};
use gateway_core::messages::{
    DispatchAction, EngineOutcome, EnvelopeKind, RequestEnvelope, RequestError, SourceEvent,
    WireReply,
};

fn s(v: &str) -> String {
    v.to_string()
}

fn request(
    session: u64,
    token: Option<&str>,
    attested: Option<&str>,
    kind: EnvelopeKind<String>,
) -> SourceEvent<String> {
    SourceEvent::Request {
        envelope: RequestEnvelope {
            session,
            token: token.map(s),
            attested: attested.map(s),
            kind,
        },
    }
}

#[test]
fn new_connection_without_token_then_unbound_delegate() {
    // Scenario: a connection with no pre-bound token gets a fresh session
    // identity, and a delegate operation carrying a never-bound token is
    // forwarded with an empty attested resource.
    let mut d = Dispatcher::new();
    let a = d.handle_event::<String>(SourceEvent::NewConnection { pre_bound: None });
    let s1 = match a {
        DispatchAction::AssignSession { session } => session,
        _ => panic!("expected a session assignment"),
    };
    let a = d.handle_event(request(
        s1,
        Some("tok-x"),
        None,
        EnvelopeKind::DelegateOp { payload: s("op") },
    ));
    match a {
        DispatchAction::ForwardDelegate { session, payload, attested } => {
            assert_eq!(session, s1);
            assert_eq!(payload, s("op"));
            assert_eq!(attested, None);
        }
        _ => panic!("expected a delegate forward"),
    }
}

#[test]
fn fresh_session_identities_are_never_reused() {
    let mut d = Dispatcher::new();
    let mut seen = Vec::new();
    for _ in 0..5 {
        match d.handle_event::<String>(SourceEvent::NewConnection { pre_bound: None }) {
            DispatchAction::AssignSession { session } => {
                assert!(!seen.contains(&session));
                seen.push(session);
            }
            _ => panic!("expected a session assignment"),
        }
    }
}

#[test]
fn pre_bound_connection_is_visible_at_admission() {
    // Scenario: an HTTP-style source attests (tok-y, res-42) during its
    // handshake; the registry reflects it before any request is handled.
    let mut d = Dispatcher::new();
    let a = d.handle_event::<String>(SourceEvent::NewConnection {
        pre_bound: Some((s("tok-y"), s("res-42"))),
    });
    assert!(matches!(a, DispatchAction::AssignSession { .. }));
    assert_eq!(d.registry.resolve(&s("tok-y")), Some(s("res-42")));
}

#[test]
fn pre_bound_token_attests_later_delegate() {
    let mut d = Dispatcher::new();
    let a = d.handle_event::<String>(SourceEvent::NewConnection {
        pre_bound: Some((s("tok-y"), s("res-42"))),
    });
    let s1 = match a {
        DispatchAction::AssignSession { session } => session,
        _ => panic!("expected a session assignment"),
    };
    let a = d.handle_event(request(
        s1,
        Some("tok-y"),
        None,
        EnvelopeKind::DelegateOp { payload: s("op") },
    ));
    match a {
        DispatchAction::ForwardDelegate { attested, .. } => {
            assert_eq!(attested, Some(s("res-42")));
        }
        _ => panic!("expected a delegate forward"),
    }
}

#[test]
fn out_of_band_attestation_stands_without_token() {
    let mut d = Dispatcher::new();
    let a = d.handle_event(request(
        3,
        None,
        Some("res-77"),
        EnvelopeKind::DelegateOp { payload: s("op") },
    ));
    match a {
        DispatchAction::ForwardDelegate { attested, .. } => {
            assert_eq!(attested, Some(s("res-77")));
        }
        _ => panic!("expected a delegate forward"),
    }
}

#[test]
fn not_found_yields_request_error_and_no_error_log() {
    // Scenario: the engine reports the targeted resource as missing; the
    // reply is a structured request error and nothing is logged as a fault.
    let outcome: EngineOutcome<String> =
        EngineOutcome::RequestFailure { error: RequestError::NotFound { detail: s("res-9") } };
    let routed = map_outcome(outcome);
    match routed.reply {
        WireReply::RequestError { error: RequestError::NotFound { detail } } => {
            assert_eq!(detail, s("res-9"));
        }
        _ => panic!("expected a request error reply"),
    }
    assert_eq!(routed.log_error, None);
}

#[test]
fn internal_failure_is_logged_and_wrapped() {
    let outcome: EngineOutcome<String> = EngineOutcome::InternalFailure { cause: s("boom") };
    let routed = map_outcome(outcome);
    match routed.reply {
        WireReply::Unhandled { cause } => assert_eq!(cause, s("boom")),
        _ => panic!("expected an unhandled reply"),
    }
    assert_eq!(routed.log_error, Some(s("boom")));
}

#[test]
fn success_delivers_payload_silently() {
    let routed = map_outcome(EngineOutcome::Success { payload: s("result") });
    match routed.reply {
        WireReply::Delivered { payload } => assert_eq!(payload, s("result")),
        _ => panic!("expected a delivered payload"),
    }
    assert_eq!(routed.log_error, None);
}

#[test]
fn disconnect_unbinds_and_sends_no_reply() {
    // Scenario: session s2 held tok-z; its disconnect tears the binding
    // down and produces no reply of its own.
    let mut d = Dispatcher::new();
    let a = d.handle_event::<String>(SourceEvent::NewConnection {
        pre_bound: Some((s("tok-z"), s("res-5"))),
    });
    let s2 = match a {
        DispatchAction::AssignSession { session } => session,
        _ => panic!("expected a session assignment"),
    };
    assert_eq!(d.registry.resolve(&s("tok-z")), Some(s("res-5")));
    let a = d.handle_event(request(
        s2,
        None,
        None,
        EnvelopeKind::Disconnect { cause: Some(s("client went away")) },
    ));
    assert!(matches!(a, DispatchAction::NoReply));
    assert_eq!(d.registry.resolve(&s("tok-z")), None);
}

#[test]
fn contract_op_is_forwarded_unchanged() {
    let mut d = Dispatcher::new();
    let a = d.handle_event(request(
        11,
        None,
        None,
        EnvelopeKind::ContractOp { payload: s("contract-op") },
    ));
    match a {
        DispatchAction::ForwardContract { session, payload } => {
            assert_eq!(session, 11);
            assert_eq!(payload, s("contract-op"));
        }
        _ => panic!("expected a contract forward"),
    }
}

#[test]
fn unsupported_envelope_is_answered_locally() {
    let mut d = Dispatcher::new();
    let a = d.handle_event::<String>(request(4, None, None, EnvelopeKind::Unsupported));
    match a {
        DispatchAction::ReplyUnsupported { session } => assert_eq!(session, 4),
        _ => panic!("expected a local unsupported reply"),
    }
    let routed = map_outcome(unsupported_outcome::<String>());
    assert!(matches!(
        routed.reply,
        WireReply::RequestError { error: RequestError::Unsupported }
    ));
    assert_eq!(routed.log_error, None);
}

#[test]
fn every_envelope_yields_at_most_one_reply() {
    // Each request envelope decides exactly one action; only a disconnect
    // decides one that carries no reply.
    let mut d = Dispatcher::new();
    let kinds: Vec<EnvelopeKind<String>> = vec![
        EnvelopeKind::ContractOp { payload: s("a") },
        EnvelopeKind::DelegateOp { payload: s("b") },
        EnvelopeKind::Disconnect { cause: None },
        EnvelopeKind::Unsupported,
    ];
    for kind in kinds {
        let is_disconnect = matches!(kind, EnvelopeKind::Disconnect { .. });
        let a = d.handle_event(request(1, None, None, kind));
        let replies = match a {
            DispatchAction::NoReply => 0,
            DispatchAction::AssignSession { .. } => 0,
            _ => 1,
        };
        if is_disconnect {
            assert_eq!(replies, 0);
        } else {
            assert_eq!(replies, 1);
        }
    }
}
