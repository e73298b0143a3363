//! The session registry: a mapping from authorization token to the
//! resource that token grants access to and the session it is bound to.
//!
//! At most one live binding exists per token at any time; a later binding
//! for the same token silently replaces the earlier one (last writer wins),
//! and teardown removes bindings by the session that holds them, not by
//! token value.

use vstd::pervasive::VecAdditionalExecFns;
use vstd::prelude::*;

verus! {

/// One live binding: an authorization token granting access to a resource,
/// held by a session.
pub struct Binding {
    pub token: String,
    pub resource: String,
    pub session: u64,
}

/// The abstract state of the registry: the bindings in scan order, each as
/// (token, resource, session).
pub type RegView = Seq<(Seq<char>, Seq<char>, u64)>;

impl View for Binding {
    type V = (Seq<char>, Seq<char>, u64);

    open spec fn view(&self) -> Self::V {
        (self.token@, self.resource@, self.session)
    }
}

/// No two bindings hold the same token.
pub open spec fn unique_tokens(v: RegView) -> bool {
    forall|i: int, j: int| 0 <= i < j < v.len() ==> v[i].0 != v[j].0
}

/// The resource and session bound to a token: the first binding in scan
/// order that holds the token, if any.
pub open spec fn spec_lookup(v: RegView, t: Seq<char>) -> Option<(Seq<char>, u64)>
    decreases v.len(),
{
    if v.len() == 0 {
        None
    } else if v[0].0 == t {
        Some((v[0].1, v[0].2))
    } else {
        spec_lookup(v.drop_first(), t)
    }
}

/// The registry after binding `t` to resource `r` for session `s`: the
/// first binding holding `t` is replaced in place, or a new binding is
/// appended when none holds `t`.
pub open spec fn bind_seq(v: RegView, t: Seq<char>, r: Seq<char>, s: u64) -> RegView
    decreases v.len(),
{
    if v.len() == 0 {
        seq![(t, r, s)]
    } else if v[0].0 == t {
        seq![(t, r, s)] + v.drop_first()
    } else {
        seq![v[0]] + bind_seq(v.drop_first(), t, r, s)
    }
}

/// The registry after removing every binding held by session `s`.
pub open spec fn without_session(v: RegView, s: u64) -> RegView
    decreases v.len(),
{
    if v.len() == 0 {
        Seq::empty()
    } else if v[0].2 == s {
        without_session(v.drop_first(), s)
    } else {
        seq![v[0]] + without_session(v.drop_first(), s)
    }
}

/// A token held by no binding resolves to nothing.
pub proof fn lemma_lookup_absent(v: RegView, t: Seq<char>)
    requires
        forall|i: int| 0 <= i < v.len() ==> v[i].0 != t,
    ensures
        spec_lookup(v, t) is None,
    decreases v.len(),
{
    if v.len() > 0 {
        assert(v[0].0 != t);
        lemma_lookup_absent(v.drop_first(), t);
    }
}

/// A lookup never observes a partially written entry: a token that
/// resolves at all resolves to a complete (token, resource, session)
/// binding standing in the registry.
pub proof fn lemma_lookup_present(v: RegView, t: Seq<char>)
    requires
        spec_lookup(v, t) is Some,
    ensures
        exists|i: int|
            0 <= i < v.len() && v[i] == (t, spec_lookup(v, t)->Some_0.0, spec_lookup(v, t)->Some_0.1),
    decreases v.len(),
{
    if v.len() > 0 {
        if v[0].0 == t {
            assert(v[0] == (t, spec_lookup(v, t)->Some_0.0, spec_lookup(v, t)->Some_0.1));
        } else {
            lemma_lookup_present(v.drop_first(), t);
            let i = choose|i: int|
                0 <= i < v.drop_first().len() && v.drop_first()[i] == (
                    t,
                    spec_lookup(v, t)->Some_0.0,
                    spec_lookup(v, t)->Some_0.1,
                );
            assert(v[i + 1] == v.drop_first()[i]);
        }
    }
}

/// Binding a token whose first occurrence is at `idx` replaces that
/// binding in place.
proof fn lemma_bind_seq_found(v: RegView, t: Seq<char>, r: Seq<char>, s: u64, idx: int)
    requires
        0 <= idx < v.len(),
        v[idx].0 == t,
        forall|j: int| 0 <= j < idx ==> v[j].0 != t,
    ensures
        bind_seq(v, t, r, s) == v.update(idx, (t, r, s)),
    decreases idx,
{
    if idx == 0 {
        assert(bind_seq(v, t, r, s) =~= v.update(0, (t, r, s)));
    } else {
        assert(v[0].0 != t);
        assert(forall|j: int| 0 <= j < idx - 1 ==> v.drop_first()[j].0 != t);
        lemma_bind_seq_found(v.drop_first(), t, r, s, idx - 1);
        assert(bind_seq(v, t, r, s) =~= v.update(idx, (t, r, s)));
    }
}

/// Binding a token that no binding holds appends a new binding.
proof fn lemma_bind_seq_absent(v: RegView, t: Seq<char>, r: Seq<char>, s: u64)
    requires
        forall|j: int| 0 <= j < v.len() ==> v[j].0 != t,
    ensures
        bind_seq(v, t, r, s) == v.push((t, r, s)),
    decreases v.len(),
{
    if v.len() == 0 {
        assert(bind_seq(v, t, r, s) =~= v.push((t, r, s)));
    } else {
        assert(forall|j: int| 0 <= j < v.drop_first().len() ==> v.drop_first()[j].0 != t);
        lemma_bind_seq_absent(v.drop_first(), t, r, s);
        assert(bind_seq(v, t, r, s) =~= v.push((t, r, s)));
    }
}

/// After a bind, the bound token resolves to the new resource and session.
pub proof fn lemma_lookup_bind_same(v: RegView, t: Seq<char>, r: Seq<char>, s: u64)
    ensures
        spec_lookup(bind_seq(v, t, r, s), t) == Some((r, s)),
    decreases v.len(),
{
    if v.len() == 0 {
    } else if v[0].0 == t {
        let w = seq![(t, r, s)] + v.drop_first();
        assert(w[0] == (t, r, s));
    } else {
        lemma_lookup_bind_same(v.drop_first(), t, r, s);
        let w = seq![v[0]] + bind_seq(v.drop_first(), t, r, s);
        assert(w[0] == v[0]);
        assert(w.drop_first() =~= bind_seq(v.drop_first(), t, r, s));
    }
}

/// A bind leaves every other token's resolution unchanged.
pub proof fn lemma_lookup_bind_other(v: RegView, t: Seq<char>, r: Seq<char>, s: u64, u: Seq<char>)
    requires
        u != t,
    ensures
        spec_lookup(bind_seq(v, t, r, s), u) == spec_lookup(v, u),
    decreases v.len(),
{
    if v.len() == 0 {
        let w = bind_seq(v, t, r, s);
        assert(w == seq![(t, r, s)]);
        assert forall|i: int| 0 <= i < w.len() implies (#[trigger] w[i]).0 != u by {
            assert(w[i] == (t, r, s));
        }
        lemma_lookup_absent(w, u);
    } else if v[0].0 == t {
        let w = seq![(t, r, s)] + v.drop_first();
        assert(w[0] == (t, r, s));
        assert(w.drop_first() =~= v.drop_first());
        assert(spec_lookup(w, u) == spec_lookup(v.drop_first(), u));
        assert(spec_lookup(v, u) == spec_lookup(v.drop_first(), u));
    } else {
        lemma_lookup_bind_other(v.drop_first(), t, r, s, u);
        let w = seq![v[0]] + bind_seq(v.drop_first(), t, r, s);
        assert(w[0] == v[0]);
        assert(w.drop_first() =~= bind_seq(v.drop_first(), t, r, s));
        if v[0].0 == u {
            assert(spec_lookup(w, u) == Some((v[0].1, v[0].2)));
        } else {
            assert(spec_lookup(w, u) == spec_lookup(bind_seq(v.drop_first(), t, r, s), u));
        }
    }
}

/// Every binding that survives a session's teardown stood in the registry
/// before it.
pub proof fn lemma_without_session_elems(v: RegView, s: u64)
    ensures
        forall|i: int|
            0 <= i < without_session(v, s).len() ==> v.contains(
                #[trigger] without_session(v, s)[i],
            ),
    decreases v.len(),
{
    if v.len() > 0 {
        lemma_without_session_elems(v.drop_first(), s);
        let w = without_session(v, s);
        let wd = without_session(v.drop_first(), s);
        if v[0].2 == s {
            assert forall|i: int| 0 <= i < w.len() implies v.contains(#[trigger] w[i]) by {
                assert(v.drop_first().contains(w[i]));
                let j = choose|j: int| 0 <= j < v.drop_first().len() && v.drop_first()[j] == w[i];
                assert(v[j + 1] == w[i]);
            }
        } else {
            assert forall|i: int| 0 <= i < w.len() implies v.contains(#[trigger] w[i]) by {
                if i == 0 {
                    assert(w[0] == v[0]);
                } else {
                    assert(w[i] == wd[i - 1]);
                    assert(v.drop_first().contains(wd[i - 1]));
                    let j = choose|j: int|
                        0 <= j < v.drop_first().len() && v.drop_first()[j] == wd[i - 1];
                    assert(v[j + 1] == w[i]);
                }
            }
        }
    }
}

/// Dropping the first binding keeps tokens unique.
proof fn lemma_unique_drop_first(v: RegView)
    requires
        unique_tokens(v),
        v.len() > 0,
    ensures
        unique_tokens(v.drop_first()),
{
    assert forall|i: int, j: int|
        0 <= i < j < v.drop_first().len() implies v.drop_first()[i].0 != v.drop_first()[j].0 by {
        assert(v[i + 1].0 != v[j + 1].0);
    }
}

/// A session's teardown keeps tokens unique.
proof fn lemma_without_session_unique(v: RegView, s: u64)
    requires
        unique_tokens(v),
    ensures
        unique_tokens(without_session(v, s)),
    decreases v.len(),
{
    if v.len() > 0 {
        lemma_unique_drop_first(v);
        lemma_without_session_unique(v.drop_first(), s);
        if v[0].2 != s {
            let w = seq![v[0]] + without_session(v.drop_first(), s);
            let wd = without_session(v.drop_first(), s);
            lemma_without_session_elems(v.drop_first(), s);
            assert forall|i: int, j: int| 0 <= i < j < w.len() implies w[i].0 != w[j].0 by {
                if i == 0 {
                    assert(w[j] == wd[j - 1]);
                    assert(v.drop_first().contains(wd[j - 1]));
                    let k = choose|k: int|
                        0 <= k < v.drop_first().len() && v.drop_first()[k] == wd[j - 1];
                    assert(v[0].0 != v[k + 1].0);
                } else {
                    assert(w[i] == wd[i - 1] && w[j] == wd[j - 1]);
                }
            }
        }
    }
}

/// How a session's teardown changes what each token resolves to: a token
/// bound to the torn-down session resolves to nothing afterwards, and every
/// other token resolves as before.
pub proof fn lemma_lookup_without_session(v: RegView, s: u64, t: Seq<char>)
    requires
        unique_tokens(v),
    ensures
        spec_lookup(without_session(v, s), t) == (match spec_lookup(v, t) {
            Some(p) => if p.1 == s {
                None
            } else {
                Some(p)
            },
            None => None::<(Seq<char>, u64)>,
        }),
    decreases v.len(),
{
    if v.len() == 0 {
    } else {
        lemma_unique_drop_first(v);
        let w = without_session(v, s);
        let wd = without_session(v.drop_first(), s);
        if v[0].0 == t {
            if v[0].2 == s {
                lemma_without_session_elems(v.drop_first(), s);
                assert forall|i: int| 0 <= i < w.len() implies (#[trigger] w[i]).0 != t by {
                    assert(v.drop_first().contains(w[i]));
                    let j = choose|j: int|
                        0 <= j < v.drop_first().len() && v.drop_first()[j] == w[i];
                    assert(v[j + 1].0 != v[0].0);
                }
                lemma_lookup_absent(w, t);
            } else {
                assert(w[0] == v[0]);
            }
        } else {
            lemma_lookup_without_session(v.drop_first(), s, t);
            if v[0].2 != s {
                assert(w[0] == v[0]);
                assert(w.drop_first() =~= wd);
            }
        }
    }
}

/// A teardown that finds nothing to remove leaves the registry as it was.
proof fn lemma_without_session_noop(v: RegView, s: u64)
    requires
        forall|i: int| 0 <= i < v.len() ==> (#[trigger] v[i]).2 != s,
    ensures
        without_session(v, s) == v,
    decreases v.len(),
{
    if v.len() > 0 {
        assert(forall|i: int|
            0 <= i < v.drop_first().len() ==> (#[trigger] v.drop_first()[i]).2 != s);
        lemma_without_session_noop(v.drop_first(), s);
        assert(seq![v[0]] + v.drop_first() =~= v);
    }
}

/// No binding of the torn-down session survives its teardown.
pub proof fn lemma_without_session_gone(v: RegView, s: u64)
    ensures
        forall|i: int|
            0 <= i < without_session(v, s).len() ==> (#[trigger] without_session(v, s)[i]).2 != s,
    decreases v.len(),
{
    if v.len() > 0 {
        lemma_without_session_gone(v.drop_first(), s);
        let w = without_session(v, s);
        let wd = without_session(v.drop_first(), s);
        if v[0].2 != s {
            assert forall|i: int| 0 <= i < w.len() implies (#[trigger] w[i]).2 != s by {
                if i > 0 {
                    assert(w[i] == wd[i - 1]);
                }
            }
        }
    }
}

/// Tearing a session down twice in a row has the same effect as once.
pub proof fn lemma_unbind_idempotent(v: RegView, s: u64)
    ensures
        without_session(without_session(v, s), s) == without_session(v, s),
{
    lemma_without_session_gone(v, s);
    lemma_without_session_noop(without_session(v, s), s);
}


/// Every binding of the registry after a bind is either the new binding or
/// stood in the registry before it.
pub proof fn lemma_bind_seq_elems(v: RegView, t: Seq<char>, r: Seq<char>, s: u64)
    ensures
        forall|i: int|
            0 <= i < bind_seq(v, t, r, s).len() ==> (#[trigger] bind_seq(v, t, r, s)[i]) == (
                t,
                r,
                s,
            ) || v.contains(bind_seq(v, t, r, s)[i]),
    decreases v.len(),
{
    if v.len() > 0 {
        let w = bind_seq(v, t, r, s);
        if v[0].0 == t {
            assert forall|i: int|
                0 <= i < w.len() implies (#[trigger] w[i]) == (t, r, s) || v.contains(w[i]) by {
                if i > 0 {
                    assert(w[i] == v.drop_first()[i - 1]);
                    assert(v[i] == w[i]);
                }
            }
        } else {
            lemma_bind_seq_elems(v.drop_first(), t, r, s);
            let wd = bind_seq(v.drop_first(), t, r, s);
            assert forall|i: int|
                0 <= i < w.len() implies (#[trigger] w[i]) == (t, r, s) || v.contains(w[i]) by {
                if i == 0 {
                    assert(w[0] == v[0]);
                } else {
                    assert(w[i] == wd[i - 1]);
                    if wd[i - 1] != (t, r, s) {
                        assert(v.drop_first().contains(wd[i - 1]));
                        let j = choose|j: int|
                            0 <= j < v.drop_first().len() && v.drop_first()[j] == wd[i - 1];
                        assert(v[j + 1] == w[i]);
                    }
                }
            }
        }
    }
}

/// A bind keeps tokens unique.
pub proof fn lemma_bind_seq_unique(v: RegView, t: Seq<char>, r: Seq<char>, s: u64)
    requires
        unique_tokens(v),
    ensures
        unique_tokens(bind_seq(v, t, r, s)),
    decreases v.len(),
{
    let w = bind_seq(v, t, r, s);
    if v.len() == 0 {
        assert forall|p: int, q: int| 0 <= p < q < w.len() implies w[p].0 != w[q].0 by {}
    } else if v[0].0 == t {
        lemma_unique_drop_first(v);
        assert forall|p: int, q: int| 0 <= p < q < w.len() implies w[p].0 != w[q].0 by {
            if p == 0 {
                assert(w[q] == v.drop_first()[q - 1]);
                assert(v[0].0 != v[q].0);
            } else {
                assert(w[p] == v[p] && w[q] == v[q]);
            }
        }
    } else {
        lemma_unique_drop_first(v);
        lemma_bind_seq_unique(v.drop_first(), t, r, s);
        lemma_bind_seq_elems(v.drop_first(), t, r, s);
        let wd = bind_seq(v.drop_first(), t, r, s);
        assert forall|p: int, q: int| 0 <= p < q < w.len() implies w[p].0 != w[q].0 by {
            if p == 0 {
                assert(w[q] == wd[q - 1]);
                if wd[q - 1] == (t, r, s) {
                    assert(w[q].0 == t && w[0].0 == v[0].0 && v[0].0 != t);
                } else {
                    assert(v.drop_first().contains(wd[q - 1]));
                    let j = choose|j: int|
                        0 <= j < v.drop_first().len() && v.drop_first()[j] == wd[q - 1];
                    assert(v[0].0 != v[j + 1].0);
                }
            } else {
                assert(w[p] == wd[p - 1] && w[q] == wd[q - 1]);
            }
        }
    }
}

/// One write to the registry, for stating how resolutions evolve over a
/// history of writes.
pub enum RegistryOp {
    Bind { token: Seq<char>, resource: Seq<char>, session: u64 },
    Unbind { session: u64 },
}

/// The registry contents after one write.
pub open spec fn apply_op(v: RegView, op: RegistryOp) -> RegView {
    match op {
        RegistryOp::Bind { token, resource, session } => bind_seq(v, token, resource, session),
        RegistryOp::Unbind { session } => without_session(v, session),
    }
}

/// The registry contents after a history of writes, oldest first.
pub open spec fn apply_ops(v: RegView, ops: Seq<RegistryOp>) -> RegView
    decreases ops.len(),
{
    if ops.len() == 0 {
        v
    } else {
        apply_ops(apply_op(v, ops[0]), ops.drop_first())
    }
}

/// Whether a write binds token `t`.
pub open spec fn binds_token(op: RegistryOp, t: Seq<char>) -> bool {
    op matches RegistryOp::Bind { token, .. } && token == t
}

/// Whether a write ends the binding of token `t` held by session `s`: it
/// either rebinds the token or unbinds the session.
pub open spec fn op_touches(op: RegistryOp, t: Seq<char>, s: u64) -> bool {
    match op {
        RegistryOp::Bind { token, .. } => token == t,
        RegistryOp::Unbind { session } => session == s,
    }
}

/// Writes keep tokens unique.
pub proof fn lemma_apply_op_unique(v: RegView, op: RegistryOp)
    requires
        unique_tokens(v),
    ensures
        unique_tokens(apply_op(v, op)),
{
    match op {
        RegistryOp::Bind { token, resource, session } => {
            lemma_bind_seq_unique(v, token, resource, session);
        },
        RegistryOp::Unbind { session } => {
            lemma_without_session_unique(v, session);
        },
    }
}

/// A token that no write ever binds goes on resolving to nothing.
pub proof fn lemma_never_bound_stays_empty(v: RegView, ops: Seq<RegistryOp>, t: Seq<char>)
    requires
        unique_tokens(v),
        spec_lookup(v, t) is None,
        forall|i: int| 0 <= i < ops.len() ==> !binds_token(#[trigger] ops[i], t),
    ensures
        spec_lookup(apply_ops(v, ops), t) is None,
        unique_tokens(apply_ops(v, ops)),
    decreases ops.len(),
{
    if ops.len() > 0 {
        let w = apply_op(v, ops[0]);
        lemma_apply_op_unique(v, ops[0]);
        match ops[0] {
            RegistryOp::Bind { token, resource, session } => {
                lemma_lookup_bind_other(v, token, resource, session, t);
            },
            RegistryOp::Unbind { session } => {
                lemma_lookup_without_session(v, session, t);
            },
        }
        assert(forall|i: int|
            0 <= i < ops.drop_first().len() ==> !binds_token(#[trigger] ops.drop_first()[i], t));
        lemma_never_bound_stays_empty(w, ops.drop_first(), t);
    }
}

/// A live binding survives every write that neither rebinds its token nor
/// unbinds its session, and the token goes on resolving to the same
/// resource.
pub proof fn lemma_binding_persists(v: RegView, t: Seq<char>, r: Seq<char>, s: u64, ops: Seq<
    RegistryOp,
>)
    requires
        unique_tokens(v),
        spec_lookup(v, t) == Some((r, s)),
        forall|i: int| 0 <= i < ops.len() ==> !op_touches(#[trigger] ops[i], t, s),
    ensures
        spec_lookup(apply_ops(v, ops), t) == Some((r, s)),
        unique_tokens(apply_ops(v, ops)),
    decreases ops.len(),
{
    if ops.len() > 0 {
        let w = apply_op(v, ops[0]);
        lemma_apply_op_unique(v, ops[0]);
        match ops[0] {
            RegistryOp::Bind { token, resource, session } => {
                lemma_lookup_bind_other(v, token, resource, session, t);
            },
            RegistryOp::Unbind { session } => {
                lemma_lookup_without_session(v, session, t);
            },
        }
        assert(forall|i: int|
            0 <= i < ops.drop_first().len() ==> !op_touches(#[trigger] ops.drop_first()[i], t, s));
        lemma_binding_persists(w, t, r, s, ops.drop_first());
    }
}

/// After `bind(t, r, s)` the token resolves to `r`, and goes on doing so
/// across every write that neither rebinds `t` nor unbinds `s`; a later
/// rebind of `t` replaces the resolution, and an unbind of `s` clears it.
pub proof fn lemma_bind_resolves_until(
    v: RegView,
    t: Seq<char>,
    r: Seq<char>,
    s: u64,
    ops: Seq<RegistryOp>,
    r2: Seq<char>,
    s2: u64,
)
    requires
        unique_tokens(v),
        forall|i: int| 0 <= i < ops.len() ==> !op_touches(#[trigger] ops[i], t, s),
    ensures
        spec_lookup(apply_ops(bind_seq(v, t, r, s), ops), t) == Some((r, s)),
        spec_lookup(bind_seq(apply_ops(bind_seq(v, t, r, s), ops), t, r2, s2), t) == Some(
            (r2, s2),
        ),
        spec_lookup(without_session(apply_ops(bind_seq(v, t, r, s), ops), s), t) is None,
{
    let w = bind_seq(v, t, r, s);
    lemma_bind_seq_unique(v, t, r, s);
    lemma_lookup_bind_same(v, t, r, s);
    lemma_binding_persists(w, t, r, s, ops);
    let w2 = apply_ops(w, ops);
    lemma_lookup_bind_same(w2, t, r2, s2);
    lemma_lookup_without_session(w2, s, t);
}

/// The session registry. Readers look tokens up; binding and teardown
/// rewrite the store exclusively.
pub struct SessionRegistry {
    entries: Vec<Binding>,
}

/// The abstract contents of a store of bindings, in scan order.
pub open spec fn views_of(s: Seq<Binding>) -> RegView {
    s.map_values(|b: Binding| b@)
}

impl View for SessionRegistry {
    type V = RegView;

    closed spec fn view(&self) -> RegView {
        views_of(self.entries@)
    }
}

impl SessionRegistry {
    /// Every token is held by at most one binding.
    pub open spec fn wf(self) -> bool {
        unique_tokens(self@)
    }

    /// An empty registry: nothing is bound.
    pub fn new() -> (r: SessionRegistry)
        ensures
            r.wf(),
            r@ == Seq::<(Seq<char>, Seq<char>, u64)>::empty(),
    {
        let r = SessionRegistry { entries: Vec::new() };
        proof {
            assert(r@ =~= Seq::<(Seq<char>, Seq<char>, u64)>::empty());
        }
        r
    }

    /// How many bindings are live.
    pub fn len(&self) -> (n: usize)
        ensures
            n == self@.len(),
    {
        self.entries.len()
    }

    /// Looks a token up. A missing entry is a normal negative result, never
    /// an error: the token is simply not attested to any resource.
    pub fn resolve(&self, token: &String) -> (r: Option<String>)
        ensures
            match spec_lookup(self@, token@) {
                Some(p) => r matches Some(res) && res@ == p.0,
                None => r is None,
            },
    {
        let n = self.entries.len();
        let mut i: usize = 0;
        proof {
            assert(self@.skip(0) =~= self@);
        }
        while i < n
            invariant
                0 <= i <= n,
                n == self.entries.len(),
                spec_lookup(self@, token@) == spec_lookup(self@.skip(i as int), token@),
            decreases n - i,
        {
            proof {
                assert(self@.skip(i as int)[0] == self@[i as int]);
                assert(self@.skip(i as int).drop_first() =~= self@.skip(i as int + 1));
            }
            if self.entries[i].token.eq(token) {
                return Some(self.entries[i].resource.clone());
            }
            i += 1;
        }
        proof {
            assert(self@.skip(n as int) =~= Seq::<(Seq<char>, Seq<char>, u64)>::empty());
        }
        None
    }

    /// Inserts or overwrites the binding for `token`: any prior binding for
    /// the token is silently replaced (last writer wins), and every other
    /// token resolves exactly as before.
    pub fn bind(&mut self, token: String, resource: String, session: u64)
        requires
            old(self).wf(),
        ensures
            final(self).wf(),
            final(self)@ == bind_seq(old(self)@, token@, resource@, session),
            spec_lookup(final(self)@, token@) == Some((resource@, session)),
            forall|u: Seq<char>| u != token@ ==> spec_lookup(final(self)@, u) == spec_lookup(
                old(self)@,
                u,
            ),
    {
        let ghost v0 = self@;
        let n = self.entries.len();
        let mut i: usize = 0;
        while i < n
            invariant
                0 <= i <= n,
                n == self.entries.len(),
                *self == *old(self),
                unique_tokens(v0),
                forall|j: int| 0 <= j < i ==> v0[j].0 != token@,
                v0 == self@,
            decreases n - i,
        {
            proof {
                assert(v0[i as int] == self.entries@[i as int]@);
            }
            if self.entries[i].token.eq(&token) {
                proof {
                    assert(v0[i as int].0 == token@);
                    lemma_bind_seq_found(v0, token@, resource@, session, i as int);
                }
                let b = Binding { token, resource, session };
                self.entries.set(i, b);
                proof {
                    assert(self@ =~= v0.update(i as int, (token@, resource@, session)));
                    assert forall|p: int, q: int|
                        0 <= p < q < self@.len() implies self@[p].0 != self@[q].0 by {
                        assert(v0[p].0 != v0[q].0);
                        if p != i && q != i {
                        } else if p == i as int {
                            assert(v0[q].0 != v0[i as int].0);
                        } else {
                            assert(v0[p].0 != v0[i as int].0);
                        }
                    }
                    lemma_lookup_bind_same(v0, token@, resource@, session);
                    assert forall|u: Seq<char>| u != token@ implies spec_lookup(self@, u) == spec_lookup(
                        v0,
                        u,
                    ) by {
                        lemma_lookup_bind_other(v0, token@, resource@, session, u);
                    }
                }
                return ;
            }
            i += 1;
        }
        proof {
            lemma_bind_seq_absent(v0, token@, resource@, session);
        }
        let b = Binding { token, resource, session };
        self.entries.push(b);
        proof {
            assert(self@ =~= v0.push((token@, resource@, session)));
            assert forall|p: int, q: int|
                0 <= p < q < self@.len() implies self@[p].0 != self@[q].0 by {
                if q < v0.len() {
                    assert(v0[p].0 != v0[q].0);
                } else {
                    assert(v0[p].0 != token@);
                }
            }
            lemma_lookup_bind_same(v0, token@, resource@, session);
            assert forall|u: Seq<char>| u != token@ implies spec_lookup(self@, u) == spec_lookup(
                v0,
                u,
            ) by {
                lemma_lookup_bind_other(v0, token@, resource@, session, u);
            }
        }
    }

    /// Removes every binding held by `session`, by a linear scan. Tokens
    /// bound to other sessions keep resolving exactly as before; afterwards
    /// no binding of `session` remains, so a second call changes nothing.
    pub fn unbind_by_session(&mut self, session: u64)
        requires
            old(self).wf(),
        ensures
            final(self).wf(),
            final(self)@ == without_session(old(self)@, session),
    {
        let ghost v0 = self@;
        let mut kept: Vec<Binding> = Vec::new();
        let n = self.entries.len();
        let mut i: usize = 0;
        proof {
            assert(v0.skip(0) =~= v0);
            assert(views_of(kept@) =~= Seq::<(Seq<char>, Seq<char>, u64)>::empty());
            assert(views_of(kept@) + without_session(v0.skip(0), session) =~= without_session(
                v0,
                session,
            ));
        }
        while i < n
            invariant
                0 <= i <= n,
                n == self.entries.len(),
                *self == *old(self),
                v0 == self@,
                without_session(v0, session) == views_of(kept@) + without_session(
                    v0.skip(i as int),
                    session,
                ),
            decreases n - i,
        {
            proof {
                assert(v0.skip(i as int)[0] == v0[i as int]);
                assert(v0.skip(i as int).drop_first() =~= v0.skip(i as int + 1));
            }
            if self.entries[i].session != session {
                let ghost kv = views_of(kept@);
                let b = Binding {
                    token: self.entries[i].token.clone(),
                    resource: self.entries[i].resource.clone(),
                    session: self.entries[i].session,
                };
                kept.push(b);
                proof {
                    assert(views_of(kept@) =~= kv.push(v0[i as int]));
                    assert(kv.push(v0[i as int]) + without_session(v0.skip(i as int + 1), session)
                        =~= kv + (seq![v0[i as int]] + without_session(
                        v0.skip(i as int + 1),
                        session,
                    )));
                }
            }
            i += 1;
        }
        proof {
            assert(v0.skip(n as int) =~= Seq::<(Seq<char>, Seq<char>, u64)>::empty());
            assert(views_of(kept@) + without_session(v0.skip(n as int), session) =~= views_of(
                kept@,
            ));
            lemma_without_session_unique(v0, session);
        }
        self.entries = kept;
    }
}

} // verus!
