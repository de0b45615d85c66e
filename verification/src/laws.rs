//! What the mediator promises of whole exchanges: joining and leaving, refusals,
//! notices, and the way of a datagram.

use vstd::prelude::*;
use vstd::utf8::*;

use crate::bytes;
use crate::consistency;
use crate::constants::{
    CMD_CALL_CREATE, CMD_CALL_CREATE_ACK, CMD_CALL_JOIN, CMD_CALL_JOIN_ACK, CMD_CALL_LEAVE,
    CMD_ERROR, CMD_HELLO, CMD_HELLO_ACK, EMPTY_SESSION_TTL_NANOS, ERR_MALFORMED,
    ERR_MODE_UNSUPPORTED, ERR_SESSION_FULL, EVT_JOINED, EVT_LEFT, MAX_CONTROL_FRAME,
    MAX_DISPLAY_NAME_LEN, MAX_PARTICIPANTS, PUBKEY_LEN, SESSION_ID_LEN,
};
use crate::control::ControlEventModel;
use crate::handlers;
use crate::keyed::{self, Keyed};
use crate::media::{MediaModel, OutgoingModel};
use crate::protocol;
use crate::server::{ControlId, EffectModel, MemberModel, ServerModel};
use crate::session::{self, CallMode, Clock, ParticipantModel, SessionModel};
use crate::text;
use crate::tlv;

verus! {

// ── Joining and leaving ──────────────────────────────────────────────────

/// Whether a join request on stream `cid` is carried out.
pub open spec fn join_succeeds(
    st: ServerModel,
    cid: ControlId,
    remote: Seq<u8>,
    body: Seq<u8>,
) -> bool {
    &&& st.consistent()
    &&& st.live(cid)
    &&& st.controls[cid] == remote
    &&& remote.len() == PUBKEY_LEN
    &&& handlers::join_request(body, remote) matches Ok(req) && st.registry.refusal(
        req.session_id,
        req.identity,
    ) is None
}

/// A join request that is carried out brings in one participant, under the
/// identity that it advertises and with the routing key of its stream, and
/// touches no other. The session is no longer counted as empty.
pub proof fn join_adds_one_participant(
    st: ServerModel,
    cid: ControlId,
    remote: Seq<u8>,
    body: Seq<u8>,
    clock: Clock,
)
    requires
        join_succeeds(st, cid, remote, body),
    ensures
        ({
            let req = handlers::join_request(body, remote)->Ok_0;
            let p = req.participant(cid, remote, clock);
            let after = st.join_step(cid, remote, body, clock)->Ok_0.0;
            &&& st.join_step(cid, remote, body, clock) is Ok
            &&& after.registry.session(req.session_id) is Some
            &&& after.registry.session(req.session_id)->Some_0.empty_since is None
            &&& forall|id: Seq<u8>, pk: Seq<u8>| #[trigger]
                after.participant(id, pk) == (if id == req.session_id && pk == req.identity {
                    Some(p)
                } else {
                    st.participant(id, pk)
                })
            &&& forall|id: Seq<u8>, pk: Seq<u8>| #[trigger]
                after.owner(id, pk) == (if id == req.session_id && pk == req.identity {
                    Some(cid)
                } else {
                    st.owner(id, pk)
                })
        }),
{
    let req = handlers::join_request(body, remote)->Ok_0;
    let s = st.registry.session(req.session_id)->Some_0;
    consistency::lemma_join_request_ok(st, cid, remote, body, clock);
    consistency::lemma_joined(st, s, req.participant(cid, remote, clock));
}

/// A leave request takes out the participants of the session that its stream
/// owns, and touches no other.
pub proof fn leave_takes_exactly_own(
    st: ServerModel,
    cid: ControlId,
    body: Seq<u8>,
    clock: Clock,
)
    requires
        st.consistent(),
        handlers::leave_request(body) is Ok,
    ensures
        ({
            let session = handlers::leave_request(body)->Ok_0;
            let after = st.leave_step(cid, body, clock)->Ok_0.0;
            &&& st.leave_step(cid, body, clock) is Ok
            &&& forall|id: Seq<u8>, pk: Seq<u8>| #[trigger]
                after.participant(id, pk) == (if id == session && st.owner(id, pk) == Some(cid) {
                    None
                } else {
                    st.participant(id, pk)
                })
            &&& forall|id: Seq<u8>, pk: Seq<u8>| #[trigger]
                after.owner(id, pk) == (if id == session && st.owner(id, pk) == Some(cid) {
                    None
                } else {
                    st.owner(id, pk)
                })
        }),
{
    let session = handlers::leave_request(body)->Ok_0;
    let keys = st.owned_by(cid, Some(session));
    let after = st.leave_step(cid, body, clock)->Ok_0.0;
    consistency::lemma_owned_by(st, cid, Some(session));
    consistency::lemma_removals(st, keys, cid, clock.monotonic, None);
    assert forall|id: Seq<u8>, pk: Seq<u8>| #[trigger] after.participant(id, pk) == (if id
        == session && st.owner(id, pk) == Some(cid) {
        None
    } else {
        st.participant(id, pk)
    }) by {
        assert(keys.contains((id, pk)) <==> st.owner(id, pk) == Some(cid) && Some(session) == Some(
            id,
        ));
    }
    assert forall|id: Seq<u8>, pk: Seq<u8>| #[trigger] after.owner(id, pk) == (if id == session
        && st.owner(id, pk) == Some(cid) {
        None
    } else {
        st.owner(id, pk)
    }) by {
        assert(keys.contains((id, pk)) <==> st.owner(id, pk) == Some(cid) && Some(session) == Some(
            id,
        ));
    }
}

/// What a stream owns in a session where it owned nothing before it joined.
proof fn lemma_owned_after_first_join(st: ServerModel, s: SessionModel, p: ParticipantModel)
    requires
        st.wf(),
        st.owner(s.id, p.pubkey) is None,
        forall|pk: Seq<u8>| #[trigger] st.owner(s.id, pk) != Some(p.control_id),
    ensures
        st.with_joined(s, p).owned_by(p.control_id, Some(s.id)) == seq![(s.id, p.pubkey)],
{
    let cid = p.control_id;
    let only = Some(s.id);
    let wanted = |m: MemberModel| m.owner == cid && (only is None || only == Some(m.session));
    let m = MemberModel { session: s.id, pubkey: p.pubkey, owner: cid };
    let f = st.members.filter(wanted);
    if f.len() > 0 {
        let k = f[0].key();
        keyed::filter_then_lookup(st.members, wanted, k);
        keyed::lemma_place(f, 0);
        keyed::lemma_found(st.members, k);
        assert(st.owner(s.id, f[0].pubkey) == Some(cid));
    }
    assert(f =~= Seq::<MemberModel>::empty());
    let after = st.with_joined(s, p).members;
    assert(after == st.members.push(m));
    reveal(Seq::filter);
    assert(after.drop_last() =~= st.members);
    assert(after.filter(wanted) =~= seq![m]);
    assert(st.with_joined(s, p).owned_by(cid, only) =~= seq![(s.id, p.pubkey)]);
}

/// Leaving undoes joining: a client that joins a session where its stream owns
/// nobody yet, under an identity that does not take part, and then leaves,
/// leaves the server as it was. Only a session that was empty counts as empty
/// from then on anew.
pub proof fn join_then_leave(
    st: ServerModel,
    cid: ControlId,
    remote: Seq<u8>,
    body: Seq<u8>,
    clock: Clock,
    leave_body: Seq<u8>,
    later: Clock,
)
    requires
        join_succeeds(st, cid, remote, body),
        ({
            let req = handlers::join_request(body, remote)->Ok_0;
            &&& st.participant(req.session_id, req.identity) is None
            &&& forall|pk: Seq<u8>| #[trigger] st.owner(req.session_id, pk) != Some(cid)
            &&& handlers::leave_request(leave_body) == Ok::<Seq<u8>, Seq<char>>(req.session_id)
        }),
    ensures
        ({
            let req = handlers::join_request(body, remote)->Ok_0;
            let s = st.registry.session(req.session_id)->Some_0;
            let joined = st.join_step(cid, remote, body, clock)->Ok_0.0;
            let left = joined.leave_step(cid, leave_body, later)->Ok_0.0;
            &&& s.participants.len() > 0 ==> left == st
            &&& s.participants.len() == 0 ==> left == st.with_session(
                (SessionModel { empty_since: Some(later.monotonic), ..s }),
            )
        }),
{
    let req = handlers::join_request(body, remote)->Ok_0;
    let s = st.registry.session(req.session_id)->Some_0;
    let p = req.participant(cid, remote, clock);
    let now = later.monotonic;
    consistency::lemma_join_request_ok(st, cid, remote, body, clock);
    consistency::lemma_joined(st, s, p);
    assert(st.agrees(s.id, p.pubkey, None)) by {
        assert(st.participant(s.id, p.pubkey) is None);
    }
    assert(st.sound(s));
    lemma_owned_after_first_join(st, s, p);
    let joined = st.with_joined(s, p);
    let sj = s.joined(p);
    let left = joined.leave_step(cid, leave_body, later)->Ok_0.0;
    let keys = seq![(s.id, p.pubkey)];
    reveal_with_fuel(ServerModel::removals_step, 2);
    assert(keys.drop_last() =~= Seq::<handlers::MemberKey>::empty());
    assert(joined.owner(s.id, p.pubkey) == Some(cid));
    assert(joined.participant(s.id, p.pubkey) == Some(p));
    assert(left == joined.with_left(sj, p.pubkey, now));
    // The participants of the session.
    keyed::lemma_found(st.registry.sessions, s.id);
    keyed::put_then_without(s.participants, p);
    let back = sj.left(p.pubkey, now);
    assert(back == (SessionModel {
        empty_since: if s.participants.len() == 0 {
            Some(now)
        } else {
            None
        },
        ..s
    }));
    // The table of owners.
    let m = MemberModel { session: s.id, pubkey: p.pubkey, owner: cid };
    keyed::put_then_without(st.members, m);
    assert(left.members == st.members);
    // The table of sessions.
    let i = keyed::place(st.registry.sessions, s.id);
    let mid = st.registry.sessions.update(i, sj);
    assert(joined.registry.sessions == mid);
    assert(mid[i] == sj);
    keyed::put_then_lookup(st.registry.sessions, sj, s.id);
    keyed::lemma_place(mid, i);
    assert(mid.update(i, back) =~= st.registry.sessions.update(i, back));
    assert(left.registry.sessions == st.registry.sessions.update(i, back));
    if s.participants.len() > 0 {
        assert(back == s);
        assert(st.registry.sessions.update(i, s) =~= st.registry.sessions);
    }
    assert(left =~= st.with_session(back));
}

/// An identity that joins again from another stream is that stream's from then
/// on: the end of any other stream leaves it in the session.
pub proof fn rejoining_moves_the_participant(
    st: ServerModel,
    cid: ControlId,
    remote: Seq<u8>,
    body: Seq<u8>,
    clock: Clock,
    other: ControlId,
    other_remote: Seq<u8>,
    later: Clock,
    id: Seq<u8>,
)
    requires
        join_succeeds(st, cid, remote, body),
        other != cid,
    ensures
        ({
            let req = handlers::join_request(body, remote)->Ok_0;
            let joined = st.join_step(cid, remote, body, clock)->Ok_0.0;
            let ended = ControlEventModel::Ended;
            let after = joined.control_step(other, other_remote, ended, later, id).0;
            after.participant(req.session_id, req.identity) == Some(
                req.participant(cid, remote, clock),
            )
        }),
{
    let req = handlers::join_request(body, remote)->Ok_0;
    let s = st.registry.session(req.session_id)->Some_0;
    let p = req.participant(cid, remote, clock);
    let joined = st.join_step(cid, remote, body, clock)->Ok_0.0;
    let ended = ControlEventModel::Ended;
    let after = joined.control_step(other, other_remote, ended, later, id).0;
    consistency::lemma_join_request_ok(st, cid, remote, body, clock);
    consistency::lemma_joined(st, s, p);
    consistency::ended_stream_owns_nothing(joined, other, other_remote, later, id);
    assert(joined.owner(req.session_id, req.identity) == Some(cid));
    assert(joined.participant(req.session_id, req.identity) == Some(p));
    assert(after.participant(req.session_id, req.identity) == Some(p));
}

// ── The life of a session ────────────────────────────────────────────────

/// Anybody can join a session that has just been made.
pub proof fn created_session_can_be_joined(
    st: ServerModel,
    body: Seq<u8>,
    clock: Clock,
    id: Seq<u8>,
    pubkey: Seq<u8>,
)
    requires
        st.wf(),
        handlers::create_request(body) matches Ok(mode) && st.registry.supports(mode),
    ensures
        ({
            let after = st.create_step(body, clock, id)->Ok_0.0;
            &&& st.create_step(body, clock, id) is Ok
            &&& after.registry.session(id) is Some
            &&& after.registry.refusal(id, pubkey) is None
        }),
{
    let mode = handlers::create_request(body)->Ok_0;
    keyed::put_then_lookup(st.registry.sessions, SessionModel::fresh(id, mode, clock), id);
}

/// No session has more participants than it may, and one that has as many as it
/// may takes nobody new. Who takes part already may join again.
pub proof fn capacity_is_kept(st: ServerModel, remote: Seq<u8>, body: Seq<u8>)
    requires
        st.wf(),
        handlers::join_request(body, remote) is Ok,
        ({
            let req = handlers::join_request(body, remote)->Ok_0;
            st.registry.session(req.session_id) is Some
        }),
    ensures
        ({
            let req = handlers::join_request(body, remote)->Ok_0;
            let s = st.registry.session(req.session_id)->Some_0;
            &&& s.participants.len() <= MAX_PARTICIPANTS
            &&& refusal_of(st, remote, CMD_CALL_JOIN, body) == (if s.participants.len()
                == MAX_PARTICIPANTS && !s.has(req.identity) {
                Some((ERR_SESSION_FULL, "session full"@))
            } else {
                None
            })
        }),
{
    let req = handlers::join_request(body, remote)->Ok_0;
    keyed::lemma_found(st.registry.sessions, req.session_id);
}

/// With MCU mode off no session is in it, and a request for one is refused.
pub proof fn mcu_is_refused(st: ServerModel, remote: Seq<u8>, body: Seq<u8>, session: Seq<u8>)
    requires
        st.consistent(),
        !st.registry.mcu_enabled,
    ensures
        st.registry.session(session) matches Some(s) ==> s.mode == CallMode::Sfu,
        handlers::create_request(body) == Ok::<CallMode, Seq<char>>(CallMode::Mcu) ==> refusal_of(
            st,
            remote,
            CMD_CALL_CREATE,
            body,
        ) == Some((ERR_MODE_UNSUPPORTED, "mode unsupported"@)),
{
    if st.registry.session(session) is Some {
        assert(st.sound(st.registry.session(session)->Some_0));
    }
}

/// A session that somebody takes part in is never dropped, and an empty one is
/// dropped once it has been empty for long enough and no sooner.
pub proof fn only_stale_sessions_are_dropped(st: ServerModel, session: Seq<u8>, now: u64)
    requires
        st.consistent(),
        st.registry.session(session) is Some,
    ensures
        ({
            let s = st.registry.session(session)->Some_0;
            let after = st.collected(now).registry.session(session);
            if s.participants.len() > 0 {
                after == Some(s)
            } else {
                &&& s.empty_since is Some
                &&& after == (if now - s.empty_since->Some_0 >= EMPTY_SESSION_TTL_NANOS {
                    None
                } else {
                    Some(s)
                })
            }
        }),
{
    let s = st.registry.session(session)->Some_0;
    assert(st.sound(s));
    session::gc_takes_exactly_the_expired(st.registry, now, session);
}

// ── Refusals and answers ─────────────────────────────────────────────────

/// The code and the text with which a request is refused, if it is.
pub open spec fn refusal_of(
    st: ServerModel,
    remote: Seq<u8>,
    cmd: u8,
    body: Seq<u8>,
) -> Option<(u8, Seq<char>)> {
    if cmd == CMD_HELLO {
        None
    } else if cmd == CMD_CALL_CREATE {
        match handlers::create_request(body) {
            Err(text) => Some((ERR_MALFORMED, text)),
            Ok(mode) => if st.registry.supports(mode) {
                None
            } else {
                Some((ERR_MODE_UNSUPPORTED, "mode unsupported"@))
            },
        }
    } else if cmd == CMD_CALL_JOIN {
        match handlers::join_request(body, remote) {
            Err(text) => Some((ERR_MALFORMED, text)),
            Ok(req) => match st.registry.refusal(req.session_id, req.identity) {
                Some(code) => Some((code, handlers::refusal_text(code))),
                None => None,
            },
        }
    } else if cmd == CMD_CALL_LEAVE {
        match handlers::leave_request(body) {
            Err(text) => Some((ERR_MALFORMED, text)),
            Ok(_) => None,
        }
    } else {
        Some((ERR_MALFORMED, "unknown cmd 0x"@ + text::hex_byte(cmd)))
    }
}

/// A request that is refused changes nothing, and its answer is one error with
/// the code and the text of the refusal.
pub proof fn refused_request_changes_nothing(
    st: ServerModel,
    cid: ControlId,
    remote: Seq<u8>,
    cmd: u8,
    body: Seq<u8>,
    clock: Clock,
    id: Seq<u8>,
)
    requires
        refusal_of(st, remote, cmd, body) is Some,
    ensures
        ({
            let event = ControlEventModel::Frame { cmd, body };
            let (code, text) = refusal_of(st, remote, cmd, body)->Some_0;
            st.control_step(cid, remote, event, clock, id) == (
                st,
                handlers::error_reply(code, text),
            )
        }),
{
}

/// Whether nothing in a list is a reply.
pub open spec fn only_sends(effects: Seq<EffectModel>) -> bool {
    forall|i: int| 0 <= i < effects.len() ==> (#[trigger] effects[i]) is Send
}

pub(crate) proof fn lemma_removals_send(
    st: ServerModel,
    keys: Seq<handlers::MemberKey>,
    cid: ControlId,
    now: u64,
)
    ensures
        only_sends(st.removals_step(keys, cid, now).1),
    decreases keys.len(),
{
    if keys.len() > 0 {
        lemma_removals_send(st, keys.drop_last(), cid, now);
    }
}

/// A request that is not refused is answered with its acknowledgement, first of
/// all and once; a leave request has no answer. Everything else that it leads to
/// is notices.
pub proof fn request_is_answered(
    st: ServerModel,
    cid: ControlId,
    remote: Seq<u8>,
    cmd: u8,
    body: Seq<u8>,
    clock: Clock,
    id: Seq<u8>,
)
    requires
        refusal_of(st, remote, cmd, body) is None,
    ensures
        ({
            let event = ControlEventModel::Frame { cmd, body };
            let effects = st.control_step(cid, remote, event, clock, id).1;
            if cmd == CMD_CALL_LEAVE {
                only_sends(effects)
            } else {
                &&& effects.len() > 0
                &&& effects[0] is Reply
                &&& cmd == CMD_HELLO ==> effects[0]->Reply_cmd == CMD_HELLO_ACK
                    && tlv::parse_records(effects[0].body()) is Ok
                &&& cmd == CMD_CALL_CREATE ==> effects[0]->Reply_cmd == CMD_CALL_CREATE_ACK
                &&& cmd == CMD_CALL_JOIN ==> effects[0]->Reply_cmd == CMD_CALL_JOIN_ACK
                &&& only_sends(effects.skip(1))
            }
        }),
{
    if cmd == CMD_CALL_LEAVE {
        let session = handlers::leave_request(body)->Ok_0;
        lemma_removals_send(st, st.owned_by(cid, Some(session)), cid, clock.monotonic);
    }
}

/// The time of day matters only to a request that leaves a timestamp: whatever
/// else happens on a stream, happens alike at every time of day.
pub proof fn only_timestamps_tell_the_time(
    st: ServerModel,
    cid: ControlId,
    remote: Seq<u8>,
    event: ControlEventModel,
    clock: Clock,
    unix: i64,
    id: Seq<u8>,
)
    requires
        event matches ControlEventModel::Frame { cmd, body } ==> !st.keeps_timestamp(
            remote,
            cmd,
            body,
        ),
    ensures
        st.control_step(cid, remote, event, clock, id) == st.control_step(
            cid,
            remote,
            event,
            (Clock { unix, ..clock }),
            id,
        ),
{
}

// ── What the client reads ────────────────────────────────────────────────

proof fn lemma_decimal_len(n: nat)
    requires
        n < 10_000_000_000,
    ensures
        text::decimal(n).len() <= 10,
{
    reveal_with_fuel(text::decimal, 11);
}

proof fn lemma_bytes_at_most(s: Seq<char>)
    ensures
        encode_utf8(s).len() <= 4 * s.len(),
    decreases s.len(),
{
    if s.len() > 0 {
        lemma_bytes_at_most(s.drop_first());
    }
}

/// No value of a payload is longer than the payload.
proof fn lemma_values_bounded(s: Seq<u8>)
    requires
        tlv::parse_records(s) is Ok,
    ensures
        forall|i: int|
            0 <= i < tlv::parse_records(s)->Ok_0.len() ==> (#[trigger] tlv::parse_records(
                s,
            )->Ok_0[i]).1.len() <= s.len(),
    decreases s.len(),
{
    if s.len() > 0 {
        let (length, used) = tlv::varint_at(s, 1, 4)->Ok_0;
        lemma_values_bounded(s.skip((1 + used + length) as int));
    }
}

proof fn lemma_last_bounded(records: Seq<tlv::Record>, bound: nat, tag: u8)
    requires
        forall|i: int| 0 <= i < records.len() ==> (#[trigger] records[i]).1.len() <= bound,
        tlv::last_values(records).contains_key(tag),
    ensures
        tlv::last_values(records)[tag].len() <= bound,
    decreases records.len(),
{
    if records.len() > 0 && records.last().0 != tag {
        let front = records.drop_last();
        assert forall|i: int| 0 <= i < front.len() implies (#[trigger] front[i]).1.len()
            <= bound by {
            assert(front[i] == records[i]);
        }
        lemma_last_bounded(front, bound, tag);
    }
}

/// The complaint about a body is short.
proof fn lemma_body_complaint(body: Seq<u8>)
    ensures
        handlers::read_body(body) matches Err(text) ==> text.len() <= 80,
{
    reveal_strlit("bad tlv: ");
    reveal_strlit("varint: unexpected end");
    reveal_strlit("varint overflow");
    reveal_strlit("tag 0x");
    reveal_strlit(" length ");
    reveal_strlit(" exceeds payload bounds");
    match tlv::parse_records(body) {
        Err(tlv::TlvError::OutOfBounds { tag, length }) => {
            lemma_decimal_len(length as nat);
        },
        _ => {},
    }
}

/// The complaint about a value of fixed length is short.
proof fn lemma_value_complaint(body: Seq<u8>, tag: u8, expected: nat)
    requires
        body.len() <= MAX_CONTROL_FRAME,
        expected <= 64,
        handlers::read_body(body) is Ok,
    ensures
        tlv::get_bytes(handlers::read_body(body)->Ok_0, tag, expected) matches Err(text)
            ==> text.len() <= 80,
{
    reveal_strlit("missing tag 0x");
    reveal_strlit("tag 0x");
    reveal_strlit(": expected ");
    reveal_strlit(" bytes, got ");
    let m = handlers::read_body(body)->Ok_0;
    lemma_values_bounded(body);
    if m.contains_key(tag) {
        lemma_last_bounded(tlv::parse_records(body)->Ok_0, body.len(), tag);
        lemma_decimal_len(expected);
        lemma_decimal_len(m[tag].len());
    }
}

/// The text of a refusal is short.
pub(crate) proof fn lemma_refusal_short(st: ServerModel, remote: Seq<u8>, cmd: u8, body: Seq<u8>)
    requires
        body.len() <= MAX_CONTROL_FRAME,
        refusal_of(st, remote, cmd, body) is Some,
    ensures
        refusal_of(st, remote, cmd, body)->Some_0.1.len() <= 80,
        encode_utf8(refusal_of(st, remote, cmd, body)->Some_0.1).len() <= 320,
{
    let text = refusal_of(st, remote, cmd, body)->Some_0.1;
    reveal_strlit("bad mode ");
    reveal_strlit("display name too long");
    reveal_strlit("audio_config too long");
    reveal_strlit("unknown session");
    reveal_strlit("session full");
    reveal_strlit("mode unsupported");
    reveal_strlit("unknown cmd 0x");
    lemma_body_complaint(body);
    if handlers::read_body(body) is Ok {
        lemma_value_complaint(body, tlv::TAG_MODE, 1);
        lemma_value_complaint(body, tlv::TAG_SESSION_ID, SESSION_ID_LEN as nat);
        let m = handlers::read_body(body)->Ok_0;
        match tlv::get_number(m, tlv::TAG_MODE, 1) {
            Ok(b) => {
                let v = tlv::get_bytes(m, tlv::TAG_MODE, 1)->Ok_0;
                assert(v =~= seq![v[0]]);
                bytes::lemma_be_single(v[0]);
                lemma_decimal_len(b);
            },
            Err(_) => {},
        }
    }
    lemma_bytes_at_most(text);
}

/// The client can read why its request was refused: the code and the text of the
/// refusal come back from the body of the answer.
pub proof fn refusal_is_readable(st: ServerModel, remote: Seq<u8>, cmd: u8, body: Seq<u8>)
    requires
        body.len() <= MAX_CONTROL_FRAME,
        refusal_of(st, remote, cmd, body) is Some,
    ensures
        ({
            let (code, text) = refusal_of(st, remote, cmd, body)->Some_0;
            let answer = tlv::payload(protocol::error_records(code, text));
            let m = tlv::last_values(tlv::parse_records(answer)->Ok_0);
            &&& handlers::error_reply(code, text) == handlers::reply(CMD_ERROR, answer)
            &&& tlv::parse_records(answer) is Ok
            &&& tlv::get_number(m, tlv::TAG_ERROR_CODE, 1) == Ok::<nat, Seq<char>>(code as nat)
            &&& text.len() > 0 ==> tlv::get_text(m, tlv::TAG_ERROR_MSG) == Ok::<
                Seq<char>,
                Seq<char>,
            >(text)
        }),
{
    let (code, text) = refusal_of(st, remote, cmd, body)->Some_0;
    lemma_refusal_short(st, remote, cmd, body);
    protocol::error_readable(code, text);
}

/// The client can read the participant list of a session: the session and one
/// nested record for each participant come back, in order, and each nested
/// payload reads as the records of its participant.
pub proof fn list_is_readable(st: ServerModel, session: Seq<u8>)
    requires
        st.consistent(),
        st.registry.session(session) is Some,
    ensures
        ({
            let s = st.registry.session(session)->Some_0;
            let ps = handlers::infos_of(s.participants);
            let records = protocol::update_records(session, ps);
            &&& tlv::parse_records(protocol::update_payload(s.id, ps)) == Ok::<
                Seq<tlv::Record>,
                tlv::TlvError,
            >(records)
            &&& records.len() == s.participants.len() + 1
            &&& records[0] == (tlv::TAG_SESSION_ID, session)
            &&& forall|i: int|
                0 <= i < s.participants.len() ==> (#[trigger] records[i + 1]).0
                    == tlv::TAG_PARTICIPANT && tlv::parse_records(records[i + 1].1) == Ok::<
                    Seq<tlv::Record>,
                    tlv::TlvError,
                >(protocol::participant_records(handlers::info(s.participants[i])))
        }),
{
    let s = st.registry.session(session)->Some_0;
    let ps = handlers::infos_of(s.participants);
    lemma_session_members(st, session);
    assert forall|i: int| 0 <= i < ps.len() implies protocol::info_within_limits(
        #[trigger] ps[i],
    ) by {
        assert(s.participants[i].within_limits());
    }
    protocol::update_within_limits_is_writable(session, ps);
    protocol::update_readable(session, ps);
}

/// Every participant in the list of a session is found under its identity and is
/// in order.
pub(crate) proof fn lemma_session_members(st: ServerModel, session: Seq<u8>)
    requires
        st.consistent(),
        st.registry.session(session) is Some,
    ensures
        ({
            let s = st.registry.session(session)->Some_0;
            &&& s.id == session
            &&& s.wf()
            &&& st.sound(s)
            &&& forall|i: int|
                0 <= i < s.participants.len() ==> {
                    let p = #[trigger] s.participants[i];
                    &&& st.participant(session, p.pubkey) == Some(p)
                    &&& st.owner(session, p.pubkey) == Some(p.control_id)
                    &&& st.live(p.control_id)
                    &&& st.in_order(p, None)
                }
        }),
{
    let s = st.registry.session(session)->Some_0;
    keyed::lemma_found(st.registry.sessions, session);
    assert forall|i: int| 0 <= i < s.participants.len() implies ({
        let p = #[trigger] s.participants[i];
        &&& st.participant(session, p.pubkey) == Some(p)
        &&& st.owner(session, p.pubkey) == Some(p.control_id)
        &&& st.live(p.control_id)
        &&& st.in_order(p, None)
    }) by {
        let p = s.participants[i];
        keyed::lemma_place(s.participants, i);
        assert(st.participant(session, p.pubkey) == Some(p));
        assert(st.agrees(session, p.pubkey, None));
    }
}

// ── Notices ──────────────────────────────────────────────────────────────

/// Whether everything in a list that goes to another stream goes to a live one.
pub open spec fn sends_to_live(st: ServerModel, effects: Seq<EffectModel>) -> bool {
    forall|i: int|
        0 <= i < effects.len() ==> ((#[trigger] effects[i]) matches EffectModel::Send { to, .. }
            ==> st.live(to))
}

proof fn lemma_streams_live(
    st: ServerModel,
    session: Seq<u8>,
    ps: Seq<ParticipantModel>,
    exclude: Option<Seq<u8>>,
)
    ensures
        forall|i: int|
            0 <= i < st.streams_of(session, ps, exclude).len() ==> st.live(
                #[trigger] st.streams_of(session, ps, exclude)[i],
            ),
    decreases ps.len(),
{
    if ps.len() > 0 {
        lemma_streams_live(st, session, ps.drop_last(), exclude);
        let before = st.streams_of(session, ps.drop_last(), exclude);
        let all = st.streams_of(session, ps, exclude);
        assert forall|i: int| 0 <= i < all.len() implies st.live(#[trigger] all[i]) by {
            if i < before.len() {
                assert(all[i] == before[i]);
            }
        }
    }
}

proof fn lemma_removals_live(
    st: ServerModel,
    keys: Seq<handlers::MemberKey>,
    cid: ControlId,
    now: u64,
)
    ensures
        st.removals_step(keys, cid, now).0.controls == st.controls,
        sends_to_live(st, st.removals_step(keys, cid, now).1),
    decreases keys.len(),
{
    if keys.len() > 0 {
        let front = keys.drop_last();
        lemma_removals_live(st, front, cid, now);
        let mid = st.removals_step(front, cid, now).0;
        let (session, pubkey) = keys.last();
        if mid.registry.session(session) is Some {
            let s = mid.registry.session(session)->Some_0.left(pubkey, now);
            let after = mid.removal_step(session, pubkey, Some(cid), now).0;
            lemma_streams_live(after, s.id, s.participants, None);
        }
    }
}

/// Notices go only to streams that are live.
pub proof fn notices_go_to_live_streams(
    st: ServerModel,
    cid: ControlId,
    remote: Seq<u8>,
    event: ControlEventModel,
    clock: Clock,
    id: Seq<u8>,
)
    ensures
        ({
            let (after, effects) = st.control_step(cid, remote, event, clock, id);
            sends_to_live(after, effects)
        }),
{
    match event {
        ControlEventModel::Opened => {},
        ControlEventModel::Frame { cmd, body } => {
            if cmd == CMD_CALL_JOIN {
                if handlers::join_request(body, remote) is Ok {
                    let req = handlers::join_request(body, remote)->Ok_0;
                    if st.registry.refusal(req.session_id, req.identity) is None {
                        let p = req.participant(cid, remote, clock);
                        let s = st.registry.session(req.session_id)->Some_0;
                        let after = st.with_joined(s, p);
                        lemma_streams_live(after, s.id, s.joined(p).participants, None);
                    }
                }
            } else if cmd == CMD_CALL_LEAVE {
                if handlers::leave_request(body) is Ok {
                    let session = handlers::leave_request(body)->Ok_0;
                    lemma_removals_live(
                        st,
                        st.owned_by(cid, Some(session)),
                        cid,
                        clock.monotonic,
                    );
                }
            }
        },
        ControlEventModel::Ended => {
            let mid = st.without_control(cid);
            lemma_removals_live(mid, mid.owned_by(cid, None), cid, clock.monotonic);
        },
    }
}

pub(crate) proof fn lemma_all_streams(st: ServerModel, session: Seq<u8>, ps: Seq<ParticipantModel>)
    requires
        forall|i: int|
            0 <= i < ps.len() ==> st.owner(session, (#[trigger] ps[i]).pubkey) == Some(
                ps[i].control_id,
            ) && st.live(ps[i].control_id),
    ensures
        st.streams_of(session, ps, None) == ps.map_values(|p: ParticipantModel| p.control_id),
    decreases ps.len(),
{
    let ids = |p: ParticipantModel| p.control_id;
    if ps.len() > 0 {
        let front = ps.drop_last();
        assert forall|i: int| 0 <= i < front.len() implies st.owner(
            session,
            (#[trigger] front[i]).pubkey,
        ) == Some(front[i].control_id) && st.live(front[i].control_id) by {
            assert(front[i] == ps[i]);
        }
        lemma_all_streams(st, session, front);
        assert(ps[ps.len() - 1] == ps.last());
        assert(ps.map_values(ids) =~= front.map_values(ids).push(ps.last().control_id));
    } else {
        assert(ps.map_values(ids) =~= Seq::<ControlId>::empty());
    }
}

/// Everybody is told: notice of a join or leave goes, once for each participant
/// of the session and in their order, to the stream that owns the participant.
pub proof fn everyone_is_told(
    st: ServerModel,
    session: Seq<u8>,
    event: u8,
    pubkey: Seq<u8>,
    display_name: Seq<char>,
)
    requires
        st.consistent(),
        st.registry.session(session) is Some,
    ensures
        ({
            let s = st.registry.session(session)->Some_0;
            let notices = st.event_notices(s, event, pubkey, display_name, None);
            &&& notices.len() == s.participants.len()
            &&& forall|i: int|
                0 <= i < s.participants.len() ==> (#[trigger] notices[i]) is Send
                    && notices[i]->Send_to == s.participants[i].control_id
        }),
{
    let s = st.registry.session(session)->Some_0;
    lemma_session_members(st, session);
    lemma_all_streams(st, s.id, s.participants);
}

// ── Media ────────────────────────────────────────────────────────────────

/// A datagram that is forwarded comes from a member of its session, and goes,
/// unchanged, to every other member, once each and at the routing key of the
/// member, and to nobody else.
pub proof fn forwarding_reaches_exactly_the_others(st: ServerModel, data: Seq<u8>)
    requires
        st.wf(),
        st.packet_fate(data) is Forward,
    ensures
        ({
            let session = protocol::packet_session(data);
            let sender = protocol::packet_sender(data);
            let out = st.packet_fate(data)->Forward_0;
            let s = st.registry.session(session)->Some_0;
            &&& st.participant(session, sender) is Some
            &&& out.len() == s.participants.len() - 1
            &&& forall|i: int| 0 <= i < out.len() ==> (#[trigger] out[i]).data == data
            &&& forall|i: int, j: int|
                0 <= i < out.len() && 0 <= j < out.len() && i != j ==> (#[trigger] out[i]).identity
                    != (#[trigger] out[j]).identity
            &&& forall|o: OutgoingModel| #[trigger]
                out.contains(o) <==> o.identity != sender && (st.participant(
                    session,
                    o.identity,
                ) matches Some(p) && o == p.datagram(data))
        }),
{
    let session = protocol::packet_session(data);
    let sender = protocol::packet_sender(data);
    let s = st.registry.session(session)->Some_0;
    keyed::lemma_found(st.registry.sessions, session);
    assert(s.wf());
    lemma_fan_out(s, sender, data);
}

/// Who gets a datagram.
pub(crate) proof fn lemma_fan_out(s: SessionModel, sender: Seq<u8>, data: Seq<u8>)
    requires
        s.wf(),
    ensures
        ({
            let out = s.fan_out(sender, data);
            &&& s.has(sender) ==> out.len() == s.participants.len() - 1
            &&& forall|i: int| 0 <= i < out.len() ==> (#[trigger] out[i]).data == data
            &&& forall|i: int, j: int|
                0 <= i < out.len() && 0 <= j < out.len() && i != j ==> (#[trigger] out[i]).identity
                    != (#[trigger] out[j]).identity
            &&& forall|o: OutgoingModel| #[trigger]
                out.contains(o) <==> o.identity != sender && (keyed::lookup(
                    s.participants,
                    o.identity,
                ) matches Some(p) && o == p.datagram(data))
        }),
{
    let wanted = |p: ParticipantModel| p.pubkey != sender;
    let f = s.participants.filter(wanted);
    let out = s.fan_out(sender, data);
    keyed::filter_then_lookup(s.participants, wanted, sender);
    assert forall|i: int, j: int|
        0 <= i < out.len() && 0 <= j < out.len() && i != j implies (#[trigger] out[i]).identity
        != (#[trigger] out[j]).identity by {
        assert(f[i].key() != f[j].key());
    }
    assert forall|o: OutgoingModel| #[trigger] out.contains(o) <==> o.identity != sender && (
    keyed::lookup(s.participants, o.identity) matches Some(p) && o == p.datagram(data)) by {
        let pk = o.identity;
        keyed::filter_then_lookup(s.participants, wanted, pk);
        if out.contains(o) {
            let i = choose|i: int| 0 <= i < out.len() && out[i] == o;
            keyed::lemma_place(f, i);
            keyed::lemma_found(s.participants, pk);
        }
        if pk != sender && keyed::holds(s.participants, pk) {
            keyed::lemma_found(s.participants, pk);
            keyed::lemma_found(f, pk);
            let i = keyed::place(f, pk);
            assert(out[i] == f[i].datagram(data));
        }
    }
    if s.has(sender) {
        keyed::lemma_found(s.participants, sender);
        lemma_filter_one(s.participants, sender);
    }
}

/// All items but one have another key than that one.
proof fn lemma_filter_one(s: Seq<ParticipantModel>, k: Seq<u8>)
    requires
        keyed::distinct(s),
    ensures
        s.filter(|p: ParticipantModel| p.pubkey != k).len() == s.len() - (if keyed::holds(s, k) {
            1int
        } else {
            0int
        }),
    decreases s.len(),
{
    reveal(Seq::filter);
    if s.len() > 0 {
        let front = s.drop_last();
        let last = s.last();
        assert forall|i: int| 0 <= i < front.len() implies (#[trigger] front[i]).key()
            != last.key() by {
            assert(front[i] == s[i] && s[s.len() - 1] == last);
        }
        assert(keyed::distinct(front)) by {
            assert forall|i: int, j: int|
                0 <= i < front.len() && 0 <= j < front.len() && i != j implies (
            #[trigger] front[i]).key() != (#[trigger] front[j]).key() by {
                assert(front[i] == s[i] && front[j] == s[j]);
            }
        }
        lemma_filter_one(front, k);
        assert(keyed::put(front, last) =~= s);
        keyed::put_then_lookup(front, last, k);
    }
}

/// Somebody who is not a member of a session cannot get a datagram into it.
pub proof fn outsiders_cannot_inject(st: ServerModel, data: Seq<u8>)
    requires
        st.participant(protocol::packet_session(data), protocol::packet_sender(data)) is None,
    ensures
        ({
            let fate = st.packet_fate(data);
            fate is ParseFail || fate is UnknownSession || fate is NotMember
        }),
{
}

/// A member's datagram is forwarded to the others, and dropped only where there
/// is nobody else in the session. With MCU mode off, no datagram meets another
/// fate on account of the mode of its session.
pub proof fn members_are_forwarded(st: ServerModel, data: Seq<u8>)
    requires
        st.consistent(),
        !st.registry.mcu_enabled,
        protocol::packet_error(data) is None,
        st.participant(protocol::packet_session(data), protocol::packet_sender(data)) is Some,
    ensures
        ({
            let s = st.registry.session(protocol::packet_session(data))->Some_0;
            let out = s.fan_out(protocol::packet_sender(data), data);
            if s.participants.len() == 1 {
                st.packet_fate(data) == MediaModel::NoTargets
            } else {
                st.packet_fate(data) == MediaModel::Forward(out)
            }
        }),
{
    let session = protocol::packet_session(data);
    let s = st.registry.session(session)->Some_0;
    keyed::lemma_found(st.registry.sessions, session);
    assert(st.sound(s));
    assert(s.wf());
    lemma_fan_out(s, protocol::packet_sender(data), data);
}

/// Who has joined is heard and hears: once a join request has been carried out,
/// the datagrams of the new member go to the others, and those of every other
/// member of the session go to the routing key of the new member's stream.
pub proof fn joined_member_hears_and_is_heard(
    st: ServerModel,
    cid: ControlId,
    remote: Seq<u8>,
    body: Seq<u8>,
    clock: Clock,
    data: Seq<u8>,
)
    requires
        join_succeeds(st, cid, remote, body),
        !st.registry.mcu_enabled,
        protocol::packet_error(data) is None,
        protocol::packet_session(data) == handlers::join_request(body, remote)->Ok_0.session_id,
    ensures
        ({
            let req = handlers::join_request(body, remote)->Ok_0;
            let after = st.join_step(cid, remote, body, clock)->Ok_0.0;
            let sender = protocol::packet_sender(data);
            let fate = after.packet_fate(data);
            &&& sender == req.identity ==> fate is Forward || fate is NoTargets
            &&& sender != req.identity && st.participant(req.session_id, sender) is Some ==> fate
                is Forward && fate->Forward_0.contains(
                req.participant(cid, remote, clock).datagram(data),
            )
        }),
{
    let req = handlers::join_request(body, remote)->Ok_0;
    let after = st.join_step(cid, remote, body, clock)->Ok_0.0;
    let sender = protocol::packet_sender(data);
    let s = st.registry.session(req.session_id)->Some_0;
    let p = req.participant(cid, remote, clock);
    consistency::lemma_join_request_ok(st, cid, remote, body, clock);
    consistency::lemma_joined(st, s, p);
    assert(after.participant(req.session_id, req.identity) == Some(p));
    assert(after.participant(req.session_id, sender) == (if sender == req.identity {
        Some(p)
    } else {
        st.participant(req.session_id, sender)
    }));
    if after.participant(req.session_id, sender) is Some {
        members_are_forwarded(after, data);
        let t = after.registry.session(req.session_id)->Some_0;
        keyed::lemma_found(after.registry.sessions, req.session_id);
        assert(t.wf());
        lemma_fan_out(t, sender, data);
        if sender != req.identity {
            assert(t.fan_out(sender, data).contains(p.datagram(data)));
        }
    }
}

// ── Modes and ids ────────────────────────────────────────────────────────

/// No step turns MCU mode on or off, and none changes the key of the mediator.
pub proof fn settings_stay(
    st: ServerModel,
    cid: ControlId,
    remote: Seq<u8>,
    event: ControlEventModel,
    clock: Clock,
    id: Seq<u8>,
)
    ensures
        ({
            let after = st.control_step(cid, remote, event, clock, id).0;
            &&& after.registry.mcu_enabled == st.registry.mcu_enabled
            &&& after.mediator_pub == st.mediator_pub
            &&& after.next_id == st.next_id
        }),
{
    match event {
        ControlEventModel::Opened => {},
        ControlEventModel::Frame { cmd, body } => {
            if handlers::leave_request(body) is Ok {
                let session = handlers::leave_request(body)->Ok_0;
                lemma_removals_settings(
                    st,
                    st.owned_by(cid, Some(session)),
                    cid,
                    clock.monotonic,
                );
            }
        },
        ControlEventModel::Ended => {
            let mid = st.without_control(cid);
            lemma_removals_settings(mid, mid.owned_by(cid, None), cid, clock.monotonic);
        },
    }
}

proof fn lemma_removals_settings(
    st: ServerModel,
    keys: Seq<handlers::MemberKey>,
    cid: ControlId,
    now: u64,
)
    ensures
        ({
            let after = st.removals_step(keys, cid, now).0;
            &&& after.registry.mcu_enabled == st.registry.mcu_enabled
            &&& after.mediator_pub == st.mediator_pub
            &&& after.next_id == st.next_id
        }),
    decreases keys.len(),
{
    if keys.len() > 0 {
        lemma_removals_settings(st, keys.drop_last(), cid, now);
    }
}

/// Whether every live connection has an id that has been handed out.
pub open spec fn ids_handed_out(st: ServerModel) -> bool {
    forall|cid: ControlId| #[trigger] st.live(cid) ==> cid < st.next_id
}

/// Until the ids are used up, a new connection gets an id that no live one has,
/// and the ids stay so that this holds of the next one too.
pub proof fn new_ids_are_fresh(st: ServerModel)
    requires
        ids_handed_out(st),
        st.next_id < u64::MAX,
    ensures
        !st.live(st.next_id),
        ids_handed_out(st.with_id_used()),
        st.next_id < st.with_id_used().next_id,
{
    let after = st.with_id_used();
    assert forall|cid: ControlId| #[trigger] after.live(cid) implies cid < after.next_id by {
        assert(st.live(cid));
    }
}

/// What happens on a stream whose id has been handed out brings in no id that
/// has not.
pub proof fn events_keep_ids_handed_out(
    st: ServerModel,
    cid: ControlId,
    remote: Seq<u8>,
    event: ControlEventModel,
    clock: Clock,
    id: Seq<u8>,
)
    requires
        ids_handed_out(st),
        cid < st.next_id,
    ensures
        ids_handed_out(st.control_step(cid, remote, event, clock, id).0),
{
    let after = st.control_step(cid, remote, event, clock, id).0;
    settings_stay(st, cid, remote, event, clock, id);
    assert forall|c: ControlId| #[trigger] after.live(c) implies c < after.next_id by {
        match event {
            ControlEventModel::Opened => {},
            ControlEventModel::Frame { cmd, body } => {
                if handlers::leave_request(body) is Ok {
                    let session = handlers::leave_request(body)->Ok_0;
                    lemma_removals_live(
                        st,
                        st.owned_by(cid, Some(session)),
                        cid,
                        clock.monotonic,
                    );
                }
            },
            ControlEventModel::Ended => {
                let mid = st.without_control(cid);
                lemma_removals_live(mid, mid.owned_by(cid, None), cid, clock.monotonic);
            },
        }
        assert(c == cid || st.live(c));
    }
}

// ── Frames ───────────────────────────────────────────────────────────────

/// Whether the body of every message is a TLV payload within the limit of a
/// frame.
pub open spec fn all_fit(effects: Seq<EffectModel>) -> bool {
    forall|i: int|
        0 <= i < effects.len() ==> {
            let body = (#[trigger] effects[i]).body();
            body.len() <= MAX_CONTROL_FRAME && tlv::parse_records(body) is Ok
        }
}

proof fn lemma_notices_fit(
    st: ServerModel,
    s: SessionModel,
    event: u8,
    pubkey: Seq<u8>,
    display_name: Seq<char>,
)
    requires
        s.id.len() == SESSION_ID_LEN,
        pubkey.len() == PUBKEY_LEN,
        encode_utf8(display_name).len() <= MAX_DISPLAY_NAME_LEN,
    ensures
        all_fit(st.event_notices(s, event, pubkey, display_name, None)),
{
    protocol::event_payload_bound(s.id, event, pubkey, display_name);
    protocol::event_readable(s.id, event, pubkey, display_name);
}

proof fn lemma_list_fits(st: ServerModel, session: Seq<u8>, target: Seq<u8>)
    requires
        st.consistent(),
        st.registry.session(session) is Some,
    ensures
        all_fit(st.list_notice(st.registry.session(session)->Some_0, target)),
{
    let s = st.registry.session(session)->Some_0;
    let ps = handlers::infos_of(s.participants);
    lemma_session_members(st, session);
    assert forall|i: int| 0 <= i < ps.len() implies protocol::info_within_limits(
        #[trigger] ps[i],
    ) by {
        assert(s.participants[i].within_limits());
    }
    protocol::update_payload_bound(session, ps);
    protocol::update_within_limits_is_writable(session, ps);
    protocol::update_readable(session, ps);
}

proof fn lemma_removals_fit(
    st: ServerModel,
    keys: Seq<handlers::MemberKey>,
    cid: ControlId,
    now: u64,
    closing: Option<ControlId>,
)
    requires
        st.consistent_but_for(closing),
    ensures
        all_fit(st.removals_step(keys, cid, now).1),
    decreases keys.len(),
{
    if keys.len() > 0 {
        let front = keys.drop_last();
        let (session, pubkey) = keys.last();
        lemma_removals_fit(st, front, cid, now, closing);
        consistency::lemma_removals(st, front, cid, now, closing);
        let mid = st.removals_step(front, cid, now).0;
        if mid.registry.session(session) is Some {
            let s = mid.registry.session(session)->Some_0;
            keyed::lemma_found(mid.registry.sessions, session);
            assert(mid.sound(s));
            if s.has(pubkey) {
                keyed::lemma_found(s.participants, pubkey);
                let p = keyed::lookup(s.participants, pubkey)->Some_0;
                assert(mid.participant(session, pubkey) == Some(p));
                assert(mid.agrees(session, pubkey, closing));
                lemma_notices_fit(
                    mid.with_left(s, pubkey, now),
                    s.left(pubkey, now),
                    EVT_LEFT,
                    pubkey,
                    p.display_name,
                );
            }
        }
    }
}

proof fn lemma_request_fits(
    st: ServerModel,
    cid: ControlId,
    remote: Seq<u8>,
    cmd: u8,
    body: Seq<u8>,
    clock: Clock,
    id: Seq<u8>,
)
    requires
        st.consistent(),
        remote.len() == PUBKEY_LEN,
        id.len() == SESSION_ID_LEN,
        st.live(cid),
        st.controls[cid] == remote,
        refusal_of(st, remote, cmd, body) is None,
    ensures
        ({
            let event = ControlEventModel::Frame { cmd, body };
            all_fit(st.control_step(cid, remote, event, clock, id).1)
        }),
{
    if cmd == CMD_CALL_CREATE {
        let mode = handlers::create_request(body)->Ok_0;
        protocol::ack_payload_bound(id, mode.wire(), clock.unix);
        protocol::create_ack_readable(id, mode.wire(), clock.unix);
    } else if cmd == CMD_CALL_JOIN {
        let req = handlers::join_request(body, remote)->Ok_0;
        let s = st.registry.session(req.session_id)->Some_0;
        let p = req.participant(cid, remote, clock);
        consistency::lemma_join_request_ok(st, cid, remote, body, clock);
        consistency::lemma_joined(st, s, p);
        assert(st.sound(s));
        let after = st.with_joined(s, p);
        protocol::ack_payload_bound(s.id, s.mode.wire(), clock.unix);
        protocol::join_ack_readable(s.id, s.mode.wire());
        lemma_list_fits(after, s.id, req.identity);
        lemma_notices_fit(after, s.joined(p), EVT_JOINED, req.identity, req.display_name);
    } else if cmd == CMD_CALL_LEAVE {
        let session = handlers::leave_request(body)->Ok_0;
        lemma_removals_fit(st, st.owned_by(cid, Some(session)), cid, clock.monotonic, None);
    }
}

/// What the server sends reads back: every message fits in a frame, the bytes of
/// the frame spell its command and its body, and the body is a TLV payload.
pub proof fn sent_frames_read_back(
    st: ServerModel,
    cid: ControlId,
    remote: Seq<u8>,
    event: ControlEventModel,
    clock: Clock,
    id: Seq<u8>,
)
    requires
        st.consistent(),
        remote.len() == PUBKEY_LEN,
        id.len() == SESSION_ID_LEN,
        consistency::can_happen(st, cid, remote, event),
        event matches ControlEventModel::Frame { body, .. } ==> body.len() <= MAX_CONTROL_FRAME,
    ensures
        ({
            let effects = st.control_step(cid, remote, event, clock, id).1;
            forall|i: int|
                0 <= i < effects.len() ==> protocol::frame_status(
                    protocol::frame_bytes((#[trigger] effects[i]).cmd(), effects[i].body()),
                ) == protocol::FrameStatus::Done(effects[i].cmd(), effects[i].body())
                    && tlv::parse_records(effects[i].body()) is Ok
        }),
{
    let effects = st.control_step(cid, remote, event, clock, id).1;
    match event {
        ControlEventModel::Opened => {},
        ControlEventModel::Frame { cmd, body } => {
            match refusal_of(st, remote, cmd, body) {
                Some((code, text)) => {
                    refused_request_changes_nothing(st, cid, remote, cmd, body, clock, id);
                    lemma_refusal_short(st, remote, cmd, body);
                    protocol::error_payload_bound(code, text);
                    protocol::error_readable(code, text);
                },
                None => {
                    lemma_request_fits(st, cid, remote, cmd, body, clock, id);
                },
            }
        },
        ControlEventModel::Ended => {
            let mid = st.without_control(cid);
            consistency::lemma_closed(st, cid);
            lemma_removals_fit(mid, mid.owned_by(cid, None), cid, clock.monotonic, Some(cid));
        },
    }
    assert(all_fit(effects));
    assert forall|i: int| 0 <= i < effects.len() implies protocol::frame_status(
        protocol::frame_bytes((#[trigger] effects[i]).cmd(), effects[i].body()),
    ) == protocol::FrameStatus::Done(effects[i].cmd(), effects[i].body()) && tlv::parse_records(
        effects[i].body(),
    ) is Ok by {
        protocol::frame_roundtrip(effects[i].cmd(), effects[i].body());
    }
}

} // verus!
