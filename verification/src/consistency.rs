//! What holds of the server at all times, whatever comes in on its streams.

use vstd::prelude::*;
use vstd::utf8::*;

use crate::constants::{
    CMD_CALL_CREATE, CMD_CALL_JOIN, CMD_CALL_LEAVE, MAX_ASC_LEN, MAX_DISPLAY_NAME_LEN, PUBKEY_LEN,
    SESSION_ID_LEN,
};
use crate::control::ControlEventModel;
use crate::handlers;
use crate::keyed::{self, Keyed};
use crate::server::{ControlId, MemberModel, ServerModel};
use crate::session::{self, Clock, ParticipantModel, RegistryModel, SessionModel};

verus! {

impl ParticipantModel {
    /// Whether a participant keeps to the limits of the protocol.
    pub open spec fn within_limits(self) -> bool {
        &&& self.pubkey.len() == PUBKEY_LEN
        &&& self.ygg_pubkey.len() == PUBKEY_LEN
        &&& encode_utf8(self.display_name).len() <= MAX_DISPLAY_NAME_LEN
        &&& self.audio_config.len() <= MAX_ASC_LEN
    }
}

impl ServerModel {
    /// The participant `pubkey` of a session.
    pub open spec fn participant(self, session: Seq<u8>, pubkey: Seq<u8>) -> Option<
        ParticipantModel,
    > {
        match self.registry.session(session) {
            Some(s) => keyed::lookup(s.participants, pubkey),
            None => None,
        }
    }

    /// Whether `p` is as it should be: its owner is a live stream, or the one
    /// that is being closed, and its routing key is the one that the owner
    /// authenticated with.
    pub open spec fn in_order(self, p: ParticipantModel, closing: Option<ControlId>) -> bool {
        &&& p.within_limits()
        &&& self.live(p.control_id) || closing == Some(p.control_id)
        &&& self.live(p.control_id) ==> self.controls[p.control_id] == p.ygg_pubkey
    }

    /// Whether the sessions and the table of owners agree on a participant.
    pub open spec fn agrees(
        self,
        session: Seq<u8>,
        pubkey: Seq<u8>,
        closing: Option<ControlId>,
    ) -> bool {
        match self.participant(session, pubkey) {
            Some(p) => self.owner(session, pubkey) == Some(p.control_id) && self.in_order(
                p,
                closing,
            ),
            None => self.owner(session, pubkey) is None,
        }
    }

    /// Whether a session is as it should be: it counts as empty exactly while
    /// nobody takes part, and its mode is one that sessions can be made in.
    pub open spec fn sound(self, s: SessionModel) -> bool {
        &&& s.id.len() == SESSION_ID_LEN
        &&& s.empty_since is Some <==> s.participants.len() == 0
        &&& self.registry.supports(s.mode)
    }

    /// The server is in order, but for participants of the stream that is being
    /// closed, if any.
    pub open spec fn consistent_but_for(self, closing: Option<ControlId>) -> bool {
        &&& self.wf()
        &&& forall|session: Seq<u8>, pubkey: Seq<u8>|
            #![trigger self.participant(session, pubkey)]
            #![trigger self.owner(session, pubkey)]
            self.agrees(session, pubkey, closing)
        &&& forall|session: Seq<u8>| #[trigger]
            self.registry.session(session) matches Some(s) ==> self.sound(s)
    }

    /// The server is in order. Every participant has an owner, which is a live
    /// control stream, and every entry in the table of owners is of a
    /// participant; a session counts as empty exactly while nobody takes part.
    pub open spec fn consistent(self) -> bool {
        self.consistent_but_for(None)
    }

    /// The server without the sessions that have been empty for too long.
    pub open spec fn collected(self, now: u64) -> ServerModel {
        ServerModel { registry: self.registry.collected(now), ..self }
    }
}

/// What a participant's arrival changes: that participant and nothing else.
pub(crate) proof fn lemma_joined(st: ServerModel, s: SessionModel, p: ParticipantModel)
    requires
        st.consistent(),
        st.registry.session(s.id) == Some(s),
        !s.full_for(p.pubkey),
        st.in_order(p, None),
    ensures
        st.with_joined(s, p).consistent(),
        st.with_joined(s, p).registry.session(s.id) == Some(s.joined(p)),
        forall|id: Seq<u8>|
            id != s.id ==> #[trigger] st.with_joined(s, p).registry.session(id)
                == st.registry.session(id),
        forall|id: Seq<u8>, pk: Seq<u8>| #[trigger]
            st.with_joined(s, p).participant(id, pk) == (if id == s.id && pk == p.pubkey {
                Some(p)
            } else {
                st.participant(id, pk)
            }),
        forall|id: Seq<u8>, pk: Seq<u8>| #[trigger]
            st.with_joined(s, p).owner(id, pk) == (if id == s.id && pk == p.pubkey {
                Some(p.control_id)
            } else {
                st.owner(id, pk)
            }),
{
    let after = st.with_joined(s, p);
    let m = MemberModel { session: s.id, pubkey: p.pubkey, owner: p.control_id };
    keyed::lemma_found(st.registry.sessions, s.id);
    assert(s.wf());
    keyed::put_then_lookup(s.participants, p, p.pubkey);
    assert(s.joined(p).wf());
    session::lemma_with_wf(st.registry, s.joined(p));
    keyed::put_then_lookup(st.members, m, m.key());
    keyed::put_then_lookup(st.registry.sessions, s.joined(p), s.id);
    assert forall|id: Seq<u8>| id != s.id implies #[trigger] after.registry.session(id)
        == st.registry.session(id) by {
        keyed::put_then_lookup(st.registry.sessions, s.joined(p), id);
    }
    assert forall|id: Seq<u8>, pk: Seq<u8>| #[trigger] after.participant(id, pk) == (if id == s.id
        && pk == p.pubkey {
        Some(p)
    } else {
        st.participant(id, pk)
    }) by {
        keyed::put_then_lookup(s.participants, p, pk);
        if id != s.id {
            assert(after.registry.session(id) == st.registry.session(id));
        }
    }
    assert forall|id: Seq<u8>, pk: Seq<u8>| #[trigger] after.owner(id, pk) == (if id == s.id && pk
        == p.pubkey {
        Some(p.control_id)
    } else {
        st.owner(id, pk)
    }) by {
        keyed::put_then_lookup(st.members, m, (id, pk));
    }
    assert forall|id: Seq<u8>, pk: Seq<u8>|
        #![trigger after.participant(id, pk)]
        #![trigger after.owner(id, pk)]
        after.agrees(id, pk, None) by {
        assert(st.agrees(id, pk, None));
    }
    assert forall|id: Seq<u8>| #[trigger]
        after.registry.session(id) matches Some(_) implies after.sound(
        after.registry.session(id)->Some_0,
    ) by {
        if id != s.id {
            assert(after.registry.session(id) == st.registry.session(id));
        } else {
            assert(st.registry.session(s.id) is Some);
        }
    }
}

/// What a participant's departure changes: that participant and nothing else.
pub(crate) proof fn lemma_left(
    st: ServerModel,
    s: SessionModel,
    pubkey: Seq<u8>,
    now: u64,
    closing: Option<ControlId>,
)
    requires
        st.consistent_but_for(closing),
        st.registry.session(s.id) == Some(s),
        s.has(pubkey),
    ensures
        st.with_left(s, pubkey, now).consistent_but_for(closing),
        st.with_left(s, pubkey, now).registry.session(s.id) == Some(s.left(pubkey, now)),
        forall|id: Seq<u8>|
            id != s.id ==> #[trigger] st.with_left(s, pubkey, now).registry.session(id)
                == st.registry.session(id),
        forall|id: Seq<u8>, pk: Seq<u8>| #[trigger]
            st.with_left(s, pubkey, now).participant(id, pk) == (if id == s.id && pk == pubkey {
                None
            } else {
                st.participant(id, pk)
            }),
        forall|id: Seq<u8>, pk: Seq<u8>| #[trigger]
            st.with_left(s, pubkey, now).owner(id, pk) == (if id == s.id && pk == pubkey {
                None
            } else {
                st.owner(id, pk)
            }),
{
    let after = st.with_left(s, pubkey, now);
    let t = s.left(pubkey, now);
    let key = (s.id, pubkey);
    keyed::lemma_found(st.registry.sessions, s.id);
    assert(s.wf());
    keyed::without_then_lookup(s.participants, pubkey, pubkey);
    assert(t.wf());
    session::lemma_with_wf(st.registry, t);
    keyed::without_then_lookup(st.members, key, key);
    keyed::put_then_lookup(st.registry.sessions, t, s.id);
    assert forall|id: Seq<u8>| id != s.id implies #[trigger] after.registry.session(id)
        == st.registry.session(id) by {
        keyed::put_then_lookup(st.registry.sessions, t, id);
    }
    assert forall|id: Seq<u8>, pk: Seq<u8>| #[trigger] after.participant(id, pk) == (if id == s.id
        && pk == pubkey {
        None
    } else {
        st.participant(id, pk)
    }) by {
        keyed::without_then_lookup(s.participants, pubkey, pk);
        if id != s.id {
            assert(after.registry.session(id) == st.registry.session(id));
        }
    }
    assert forall|id: Seq<u8>, pk: Seq<u8>| #[trigger] after.owner(id, pk) == (if id == s.id && pk
        == pubkey {
        None
    } else {
        st.owner(id, pk)
    }) by {
        keyed::without_then_lookup(st.members, key, (id, pk));
    }
    assert forall|id: Seq<u8>, pk: Seq<u8>|
        #![trigger after.participant(id, pk)]
        #![trigger after.owner(id, pk)]
        after.agrees(id, pk, closing) by {
        assert(st.agrees(id, pk, closing));
    }
    assert forall|id: Seq<u8>| #[trigger]
        after.registry.session(id) matches Some(_) implies after.sound(
        after.registry.session(id)->Some_0,
    ) by {
        if id != s.id {
            assert(after.registry.session(id) == st.registry.session(id));
        } else {
            assert(st.sound(s));
        }
    }
}

/// What taking out one participant on behalf of `cid` changes.
pub(crate) proof fn lemma_removal(
    st: ServerModel,
    session: Seq<u8>,
    pubkey: Seq<u8>,
    cid: ControlId,
    now: u64,
    closing: Option<ControlId>,
)
    requires
        st.consistent_but_for(closing),
    ensures
        ({
            let after = st.removal_step(session, pubkey, Some(cid), now).0;
            let goes = st.owner(session, pubkey) == Some(cid);
            &&& after.consistent_but_for(closing)
            &&& after.controls == st.controls
            &&& after.next_id == st.next_id
            &&& after.mediator_pub == st.mediator_pub
            &&& after.registry.mcu_enabled == st.registry.mcu_enabled
            &&& forall|id: Seq<u8>, pk: Seq<u8>| #[trigger]
                after.participant(id, pk) == (if goes && id == session && pk == pubkey {
                    None
                } else {
                    st.participant(id, pk)
                })
            &&& forall|id: Seq<u8>, pk: Seq<u8>| #[trigger]
                after.owner(id, pk) == (if goes && id == session && pk == pubkey {
                    None
                } else {
                    st.owner(id, pk)
                })
            &&& forall|id: Seq<u8>| #[trigger]
                after.registry.session(id) is Some <==> st.registry.session(id) is Some
        }),
{
    let after = st.removal_step(session, pubkey, Some(cid), now).0;
    assert(st.agrees(session, pubkey, closing));
    if st.registry.session(session) is Some {
        let s = st.registry.session(session)->Some_0;
        keyed::lemma_found(st.registry.sessions, session);
        if st.owner(session, pubkey) == Some(cid) {
            lemma_left(st, s, pubkey, now, closing);
            assert(after == st.with_left(s, pubkey, now));
            assert forall|id: Seq<u8>| #[trigger] after.registry.session(id) is Some
                <==> st.registry.session(id) is Some by {
                if id != session {
                    assert(after.registry.session(id) == st.registry.session(id));
                }
            }
        } else {
            assert(after == st);
        }
    } else {
        assert(after == st);
    }
}

/// What taking out the participants `keys` on behalf of `cid` changes: those of
/// them that `cid` owns are gone, and all others are as they were.
pub(crate) proof fn lemma_removals(
    st: ServerModel,
    keys: Seq<handlers::MemberKey>,
    cid: ControlId,
    now: u64,
    closing: Option<ControlId>,
)
    requires
        st.consistent_but_for(closing),
    ensures
        ({
            let after = st.removals_step(keys, cid, now).0;
            &&& after.consistent_but_for(closing)
            &&& after.controls == st.controls
            &&& after.next_id == st.next_id
            &&& after.mediator_pub == st.mediator_pub
            &&& after.registry.mcu_enabled == st.registry.mcu_enabled
            &&& forall|id: Seq<u8>, pk: Seq<u8>| #[trigger]
                after.participant(id, pk) == (if st.owner(id, pk) == Some(cid) && keys.contains(
                    (id, pk),
                ) {
                    None
                } else {
                    st.participant(id, pk)
                })
            &&& forall|id: Seq<u8>, pk: Seq<u8>| #[trigger]
                after.owner(id, pk) == (if st.owner(id, pk) == Some(cid) && keys.contains(
                    (id, pk),
                ) {
                    None
                } else {
                    st.owner(id, pk)
                })
            &&& forall|id: Seq<u8>| #[trigger]
                after.registry.session(id) is Some <==> st.registry.session(id) is Some
        }),
    decreases keys.len(),
{
    if keys.len() > 0 {
        let front = keys.drop_last();
        let (session, pubkey) = keys.last();
        lemma_removals(st, front, cid, now, closing);
        let mid = st.removals_step(front, cid, now).0;
        lemma_removal(mid, session, pubkey, cid, now, closing);
        let after = st.removals_step(keys, cid, now).0;
        assert(after == mid.removal_step(session, pubkey, Some(cid), now).0);
        assert forall|id: Seq<u8>, pk: Seq<u8>| keys.contains((id, pk)) <==> (front.contains(
            (id, pk),
        ) || (id == session && pk == pubkey)) by {
            if keys.contains((id, pk)) {
                let i = choose|i: int| 0 <= i < keys.len() && keys[i] == (id, pk);
                if i < front.len() {
                    assert(front[i] == (id, pk));
                }
            }
            if front.contains((id, pk)) {
                let i = choose|i: int| 0 <= i < front.len() && front[i] == (id, pk);
                assert(keys[i] == (id, pk));
            }
            if id == session && pk == pubkey {
                assert(keys[keys.len() - 1] == (id, pk));
            }
        }
        assert forall|id: Seq<u8>| #[trigger] after.registry.session(id) is Some
            <==> st.registry.session(id) is Some by {
            assert(mid.registry.session(id) is Some <==> st.registry.session(id) is Some);
        }
    }
}

/// The list of what a stream owns is complete and has nothing else in it.
pub(crate) proof fn lemma_owned_by(st: ServerModel, cid: ControlId, only: Option<Seq<u8>>)
    requires
        st.wf(),
    ensures
        forall|id: Seq<u8>, pk: Seq<u8>| #[trigger]
            st.owned_by(cid, only).contains((id, pk)) <==> st.owner(id, pk) == Some(cid) && (
            only is None || only == Some(id)),
{
    let wanted = |m: MemberModel| m.owner == cid && (only is None || only == Some(m.session));
    let f = st.members.filter(wanted);
    let keys = st.owned_by(cid, only);
    assert forall|id: Seq<u8>, pk: Seq<u8>| #[trigger] keys.contains((id, pk)) <==> st.owner(id, pk)
        == Some(cid) && (only is None || only == Some(id)) by {
        keyed::filter_then_lookup(st.members, wanted, (id, pk));
        if keys.contains((id, pk)) {
            let i = choose|i: int| 0 <= i < keys.len() && keys[i] == (id, pk);
            keyed::lemma_place(f, i);
            keyed::lemma_found(st.members, (id, pk));
        }
        if st.owner(id, pk) == Some(cid) && (only is None || only == Some(id)) {
            keyed::lemma_found(st.members, (id, pk));
            keyed::lemma_found(f, (id, pk));
            assert(keys[keyed::place(f, (id, pk))] == (id, pk));
        }
    }
}

// ── Steps keep the server in order ───────────────────────────────────────

proof fn lemma_created(st: ServerModel, s: SessionModel)
    requires
        st.consistent(),
        unoccupied(st, s.id),
        s.participants.len() == 0,
        st.sound(s),
    ensures
        st.with_session(s).consistent(),
{
    let after = st.with_session(s);
    assert(s.wf());
    session::lemma_with_wf(st.registry, s);
    assert forall|id: Seq<u8>| #[trigger] after.registry.session(id) == (if id == s.id {
        Some(s)
    } else {
        st.registry.session(id)
    }) by {
        keyed::put_then_lookup(st.registry.sessions, s, id);
    }
    assert forall|id: Seq<u8>, pk: Seq<u8>|
        #![trigger after.participant(id, pk)]
        #![trigger after.owner(id, pk)]
        after.agrees(id, pk, None) by {
        assert(st.agrees(id, pk, None));
        assert(after.owner(id, pk) == st.owner(id, pk));
        assert(after.participant(id, pk) == st.participant(id, pk));
    }
    assert forall|id: Seq<u8>| #[trigger]
        after.registry.session(id) matches Some(_) implies after.sound(
        after.registry.session(id)->Some_0,
    ) by {
        if id != s.id {
            assert(st.registry.session(id) is Some);
        }
    }
}

proof fn lemma_opened(st: ServerModel, cid: ControlId, remote: Seq<u8>)
    requires
        st.consistent(),
        !st.live(cid),
    ensures
        st.with_control(cid, remote).consistent(),
{
    let after = st.with_control(cid, remote);
    assert forall|id: Seq<u8>, pk: Seq<u8>|
        #![trigger after.participant(id, pk)]
        #![trigger after.owner(id, pk)]
        after.agrees(id, pk, None) by {
        assert(after.participant(id, pk) == st.participant(id, pk));
        assert(after.owner(id, pk) == st.owner(id, pk));
        assert(st.agrees(id, pk, None));
    }
    assert forall|id: Seq<u8>| #[trigger]
        after.registry.session(id) matches Some(_) implies after.sound(
        after.registry.session(id)->Some_0,
    ) by {
        assert(st.registry.session(id) is Some);
    }
}

pub(crate) proof fn lemma_closed(st: ServerModel, cid: ControlId)
    requires
        st.consistent(),
    ensures
        st.without_control(cid).consistent_but_for(Some(cid)),
{
    let after = st.without_control(cid);
    assert forall|id: Seq<u8>, pk: Seq<u8>|
        #![trigger after.participant(id, pk)]
        #![trigger after.owner(id, pk)]
        after.agrees(id, pk, Some(cid)) by {
        assert(after.participant(id, pk) == st.participant(id, pk));
        assert(after.owner(id, pk) == st.owner(id, pk));
        assert(st.agrees(id, pk, None));
    }
    assert forall|id: Seq<u8>| #[trigger]
        after.registry.session(id) matches Some(_) implies after.sound(
        after.registry.session(id)->Some_0,
    ) by {
        assert(st.registry.session(id) is Some);
    }
}

/// A server that has just started is in order.
pub proof fn start_is_consistent(mediator_pub: Seq<u8>, registry: RegistryModel)
    requires
        registry.sessions.len() == 0,
    ensures
        ServerModel::started(mediator_pub, registry).consistent(),
{
}

/// Taking in a connection keeps the server in order, and touches no session and
/// no participant.
pub proof fn accepting_keeps_consistent(st: ServerModel)
    requires
        st.consistent(),
    ensures
        st.with_id_used().consistent(),
        st.with_id_used().registry == st.registry,
        st.with_id_used().members == st.members,
        st.with_id_used().controls == st.controls,
{
    let after = st.with_id_used();
    assert forall|id: Seq<u8>, pk: Seq<u8>|
        #![trigger after.participant(id, pk)]
        #![trigger after.owner(id, pk)]
        after.agrees(id, pk, None) by {
        assert(after.participant(id, pk) == st.participant(id, pk));
        assert(after.owner(id, pk) == st.owner(id, pk));
        assert(st.agrees(id, pk, None));
    }
    assert forall|id: Seq<u8>| #[trigger]
        after.registry.session(id) matches Some(_) implies after.sound(
        after.registry.session(id)->Some_0,
    ) by {
        assert(st.registry.session(id) is Some);
    }
}

/// The join of a request that is well formed and not refused.
pub(crate) proof fn lemma_join_request_ok(
    st: ServerModel,
    cid: ControlId,
    remote: Seq<u8>,
    body: Seq<u8>,
    clock: Clock,
)
    requires
        st.consistent(),
        st.live(cid),
        st.controls[cid] == remote,
        remote.len() == PUBKEY_LEN,
        handlers::join_request(body, remote) is Ok,
        ({
            let req = handlers::join_request(body, remote)->Ok_0;
            st.registry.refusal(req.session_id, req.identity) is None
        }),
    ensures
        ({
            let req = handlers::join_request(body, remote)->Ok_0;
            let s = st.registry.session(req.session_id)->Some_0;
            let p = req.participant(cid, remote, clock);
            &&& st.registry.session(req.session_id) == Some(s)
            &&& s.id == req.session_id
            &&& !s.full_for(p.pubkey)
            &&& st.in_order(p, None)
            &&& st.join_step(cid, remote, body, clock) is Ok
            &&& st.join_step(cid, remote, body, clock)->Ok_0.0 == st.with_joined(s, p)
        }),
{
    let req = handlers::join_request(body, remote)->Ok_0;
    keyed::lemma_found(st.registry.sessions, req.session_id);
}

/// Whether an event can come on stream `cid`: a stream opens once, and only an
/// open stream has frames.
pub open spec fn can_happen(
    st: ServerModel,
    cid: ControlId,
    remote: Seq<u8>,
    event: ControlEventModel,
) -> bool {
    match event {
        ControlEventModel::Opened => !st.live(cid),
        ControlEventModel::Frame { .. } => st.live(cid) && st.controls[cid] == remote,
        ControlEventModel::Ended => true,
    }
}

/// Whether an event makes a session.
pub open spec fn makes_session(st: ServerModel, event: ControlEventModel) -> bool {
    event matches ControlEventModel::Frame { cmd, body } && cmd == CMD_CALL_CREATE && (
    handlers::create_request(body) matches Ok(mode) && st.registry.supports(mode))
}

/// Whether nobody takes part in a session with this id.
pub open spec fn unoccupied(st: ServerModel, id: Seq<u8>) -> bool {
    st.registry.session(id) matches Some(s) ==> s.participants.len() == 0
}

/// Whatever comes in on a stream, the server stays in order. Where a session is
/// made, nobody may take part in one with its id.
pub proof fn event_keeps_consistent(
    st: ServerModel,
    cid: ControlId,
    remote: Seq<u8>,
    event: ControlEventModel,
    clock: Clock,
    id: Seq<u8>,
)
    requires
        st.consistent(),
        remote.len() == PUBKEY_LEN,
        id.len() == SESSION_ID_LEN,
        can_happen(st, cid, remote, event),
        makes_session(st, event) ==> unoccupied(st, id),
    ensures
        st.control_step(cid, remote, event, clock, id).0.consistent(),
{
    match event {
        ControlEventModel::Opened => {
            lemma_opened(st, cid, remote);
        },
        ControlEventModel::Frame { cmd, body } => {
            frame_keeps_consistent(st, cid, remote, cmd, body, clock, id);
        },
        ControlEventModel::Ended => {
            ended_stream_owns_nothing(st, cid, remote, clock, id);
        },
    }
}

proof fn frame_keeps_consistent(
    st: ServerModel,
    cid: ControlId,
    remote: Seq<u8>,
    cmd: u8,
    body: Seq<u8>,
    clock: Clock,
    id: Seq<u8>,
)
    requires
        st.consistent(),
        remote.len() == PUBKEY_LEN,
        id.len() == SESSION_ID_LEN,
        st.live(cid),
        st.controls[cid] == remote,
        makes_session(st, ControlEventModel::Frame { cmd, body }) ==> unoccupied(st, id),
    ensures
        st.request_step(cid, remote, cmd, body, clock, id) matches Ok(step) ==> step.0.consistent(),
{
    let step = st.request_step(cid, remote, cmd, body, clock, id);
    if step is Ok {
        if cmd == CMD_CALL_CREATE {
            let mode = handlers::create_request(body)->Ok_0;
            if st.registry.supports(mode) {
                lemma_created(st, SessionModel::fresh(id, mode, clock));
            }
        } else if cmd == CMD_CALL_JOIN {
            let req = handlers::join_request(body, remote)->Ok_0;
            if st.registry.refusal(req.session_id, req.identity) is None {
                lemma_join_request_ok(st, cid, remote, body, clock);
                let s = st.registry.session(req.session_id)->Some_0;
                lemma_joined(st, s, req.participant(cid, remote, clock));
            }
        } else if cmd == CMD_CALL_LEAVE {
            let session = handlers::leave_request(body)->Ok_0;
            lemma_removals(st, st.owned_by(cid, Some(session)), cid, clock.monotonic, None);
        }
    }
}

/// A stream that has ended is forgotten: every participant that it owned is
/// gone, and every other participant of every session is as it was. The sessions
/// themselves stay.
pub proof fn ended_stream_owns_nothing(
    st: ServerModel,
    cid: ControlId,
    remote: Seq<u8>,
    clock: Clock,
    id: Seq<u8>,
)
    requires
        st.consistent(),
    ensures
        ({
            let after = st.control_step(cid, remote, ControlEventModel::Ended, clock, id).0;
            &&& after.consistent()
            &&& !after.live(cid)
            &&& forall|other: ControlId|
                other != cid ==> (#[trigger] after.live(other) <==> st.live(other))
            &&& forall|session: Seq<u8>, pk: Seq<u8>| #[trigger]
                after.owner(session, pk) != Some(cid)
            &&& forall|session: Seq<u8>, pk: Seq<u8>| #[trigger]
                after.participant(session, pk) == (if st.owner(session, pk) == Some(cid) {
                    None
                } else {
                    st.participant(session, pk)
                })
            &&& forall|session: Seq<u8>| #[trigger]
                after.registry.session(session) is Some <==> st.registry.session(session) is Some
        }),
{
    let mid = st.without_control(cid);
    let keys = mid.owned_by(cid, None);
    let after = st.control_step(cid, remote, ControlEventModel::Ended, clock, id).0;
    lemma_closed(st, cid);
    lemma_owned_by(mid, cid, None);
    lemma_removals(mid, keys, cid, clock.monotonic, Some(cid));
    assert(after == mid.removals_step(keys, cid, clock.monotonic).0);
    assert forall|session: Seq<u8>, pk: Seq<u8>| #[trigger] after.owner(session, pk) != Some(
        cid,
    ) by {
        assert(keys.contains((session, pk)) <==> mid.owner(session, pk) == Some(cid));
    }
    assert forall|session: Seq<u8>, pk: Seq<u8>| #[trigger] after.participant(session, pk) == (
    if st.owner(session, pk) == Some(cid) {
        None
    } else {
        st.participant(session, pk)
    }) by {
        assert(keys.contains((session, pk)) <==> mid.owner(session, pk) == Some(cid));
        assert(mid.owner(session, pk) == st.owner(session, pk));
        assert(mid.participant(session, pk) == st.participant(session, pk));
    }
    assert forall|session: Seq<u8>, pk: Seq<u8>|
        #![trigger after.participant(session, pk)]
        #![trigger after.owner(session, pk)]
        after.agrees(session, pk, None) by {
        assert(after.agrees(session, pk, Some(cid)));
        assert(after.owner(session, pk) != Some(cid));
    }
    assert forall|session: Seq<u8>| #[trigger] after.registry.session(session) is Some
        <==> st.registry.session(session) is Some by {
        assert(after.registry.session(session) is Some <==> mid.registry.session(session) is Some);
    }
}

/// The removal of empty sessions keeps the server in order, and takes no
/// participant out.
pub proof fn collecting_keeps_consistent(st: ServerModel, now: u64)
    requires
        st.consistent(),
    ensures
        st.collected(now).consistent(),
        forall|session: Seq<u8>, pk: Seq<u8>| #[trigger]
            st.collected(now).participant(session, pk) == st.participant(session, pk),
{
    let after = st.collected(now);
    session::lemma_collected_wf(st.registry, now);
    assert forall|session: Seq<u8>, pk: Seq<u8>| #[trigger] after.participant(session, pk)
        == st.participant(session, pk) by {
        session::gc_takes_exactly_the_expired(st.registry, now, session);
        if st.registry.session(session) is Some {
            let s = st.registry.session(session)->Some_0;
            assert(st.sound(s));
        }
    }
    assert forall|session: Seq<u8>, pk: Seq<u8>|
        #![trigger after.participant(session, pk)]
        #![trigger after.owner(session, pk)]
        after.agrees(session, pk, None) by {
        assert(after.participant(session, pk) == st.participant(session, pk));
        assert(after.owner(session, pk) == st.owner(session, pk));
        assert(st.agrees(session, pk, None));
    }
    assert forall|id: Seq<u8>| #[trigger]
        after.registry.session(id) matches Some(_) implies after.sound(
        after.registry.session(id)->Some_0,
    ) by {
        session::gc_takes_exactly_the_expired(st.registry, now, id);
        assert(st.registry.session(id) is Some);
    }
}

} // verus!
