use gateway_core::registry::SessionRegistry;

fn s(v: &str) -> String {
    v.to_string()
}

#[test]
fn never_bound_token_resolves_empty() {
    let reg = SessionRegistry::new();
    assert_eq!(reg.resolve(&s("tok-x")), None);
    assert_eq!(reg.len(), 0);
}

#[test]
fn unrelated_binds_leave_unbound_token_empty() {
    let mut reg = SessionRegistry::new();
    reg.bind(s("tok-a"), s("res-1"), 1);
    reg.bind(s("tok-b"), s("res-2"), 2);
    reg.unbind_by_session(1);
    assert_eq!(reg.resolve(&s("tok-x")), None);
}

#[test]
fn bind_then_resolve() {
    let mut reg = SessionRegistry::new();
    reg.bind(s("tok-a"), s("res-1"), 7);
    assert_eq!(reg.resolve(&s("tok-a")), Some(s("res-1")));
}

#[test]
fn rebind_replaces_last_writer_wins() {
    let mut reg = SessionRegistry::new();
    reg.bind(s("tok-a"), s("res-1"), 7);
    reg.bind(s("tok-a"), s("res-2"), 9);
    assert_eq!(reg.resolve(&s("tok-a")), Some(s("res-2")));
    assert_eq!(reg.len(), 1);
}

#[test]
fn binding_holds_until_rebind_or_unbind() {
    let mut reg = SessionRegistry::new();
    reg.bind(s("tok-a"), s("res-1"), 7);
    // Writes that neither rebind tok-a nor unbind session 7 leave it intact.
    reg.bind(s("tok-b"), s("res-9"), 8);
    reg.unbind_by_session(8);
    assert_eq!(reg.resolve(&s("tok-a")), Some(s("res-1")));
    // Unbinding the bound session clears it.
    reg.unbind_by_session(7);
    assert_eq!(reg.resolve(&s("tok-a")), None);
}

#[test]
fn unbind_removes_only_the_given_session() {
    let mut reg = SessionRegistry::new();
    reg.bind(s("tok-a"), s("res-1"), 1);
    reg.bind(s("tok-b"), s("res-2"), 2);
    reg.unbind_by_session(1);
    assert_eq!(reg.resolve(&s("tok-a")), None);
    assert_eq!(reg.resolve(&s("tok-b")), Some(s("res-2")));
    assert_eq!(reg.len(), 1);
}

#[test]
fn unbind_by_session_is_idempotent() {
    let mut once = SessionRegistry::new();
    once.bind(s("tok-a"), s("res-1"), 1);
    once.bind(s("tok-b"), s("res-2"), 2);
    once.unbind_by_session(1);

    let mut twice = SessionRegistry::new();
    twice.bind(s("tok-a"), s("res-1"), 1);
    twice.bind(s("tok-b"), s("res-2"), 2);
    twice.unbind_by_session(1);
    twice.unbind_by_session(1);

    assert_eq!(once.len(), twice.len());
    for t in ["tok-a", "tok-b"] {
        assert_eq!(once.resolve(&s(t)), twice.resolve(&s(t)));
    }
}

#[test]
fn unbind_of_unknown_session_changes_nothing() {
    let mut reg = SessionRegistry::new();
    reg.bind(s("tok-a"), s("res-1"), 1);
    reg.unbind_by_session(99);
    assert_eq!(reg.resolve(&s("tok-a")), Some(s("res-1")));
    assert_eq!(reg.len(), 1);
}

#[test]
fn reads_always_see_complete_bindings() {
    // Many sessions resolving while bindings are written and torn down:
    // every read sees either nothing or a complete (token, resource) pair,
    // never a partial entry.
    let mut reg = SessionRegistry::new();
    for round in 0u64..50 {
        let token = format!("tok-{}", round % 10);
        let resource = format!("res-{round}");
        reg.bind(token.clone(), resource.clone(), round);
        for reader in 0..10 {
            let probe = format!("tok-{reader}");
            match reg.resolve(&probe) {
                None => {}
                Some(r) => assert!(r.starts_with("res-")),
            }
        }
        assert_eq!(reg.resolve(&token), Some(resource));
        if round % 3 == 0 {
            reg.unbind_by_session(round);
            assert_eq!(reg.resolve(&token), None);
        }
    }
}
