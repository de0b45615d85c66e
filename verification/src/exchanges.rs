//! What each exchange with the mediator is for: what a request asks, by the
//! values under its tags, what changes on it, and who is told what.

use vstd::prelude::*;
use vstd::utf8::*;

use crate::consistency;
use crate::constants::{
    CMD_CALL_CREATE, CMD_CALL_CREATE_ACK, CMD_CALL_JOIN, CMD_CALL_JOIN_ACK, CMD_CALL_LEAVE,
    CMD_CALL_PARTICIPANT_EVENT, CMD_CALL_PARTICIPANT_UPDATE, CMD_ERROR, CMD_HELLO, CMD_HELLO_ACK,
    ERR_MALFORMED, ERR_MODE_UNSUPPORTED, ERR_SESSION_FULL, ERR_UNKNOWN_SESSION, EVT_JOINED,
    EVT_LEFT, MAX_CONTROL_FRAME, PUBKEY_LEN, SESSION_ID_LEN,
};
use crate::control::ControlEventModel;
use crate::delivery;
use crate::handlers;
use crate::keyed::{self, Keyed};
use crate::laws;
use crate::meaning;
use crate::protocol;
use crate::server::{ControlId, EffectModel, MemberModel, ServerModel};
use crate::session::{self, CallMode, Clock, ParticipantModel, SessionModel};
use crate::text;
use crate::tlv::{
    self, TAG_AUDIO_CONFIG, TAG_CREATED_AT, TAG_DISPLAY_NAME, TAG_ERROR_CODE, TAG_ERROR_MSG,
    TAG_EVENT_TYPE, TAG_IDENTITY_PUBKEY, TAG_MODE, TAG_PUBKEY, TAG_SESSION_ID,
};

verus! {

/// The values of a request body, by tag.
pub open spec fn values(body: Seq<u8>) -> Map<u8, Seq<u8>> {
    tlv::last_values(tlv::parse_records(body)->Ok_0)
}

/// Whether `e` tells stream `to` that `p` has joined or left a session.
pub open spec fn tells(
    e: EffectModel,
    to: ControlId,
    session: Seq<u8>,
    event: u8,
    p: ParticipantModel,
) -> bool {
    &&& e is Send
    &&& e->Send_to == to
    &&& e->Send_cmd == CMD_CALL_PARTICIPANT_EVENT
    &&& delivery::spells(
        e->Send_body,
        seq![
            (TAG_SESSION_ID, session),
            (TAG_EVENT_TYPE, seq![event]),
            (TAG_PUBKEY, p.pubkey),
            (TAG_DISPLAY_NAME, encode_utf8(p.display_name)),
        ],
    )
}

/// Whether the answer is one error, with this code and this text.
pub open spec fn refused_with(effects: Seq<EffectModel>, code: u8, text: Seq<char>) -> bool {
    &&& effects.len() == 1
    &&& effects[0] is Reply
    &&& effects[0]->Reply_cmd == CMD_ERROR
    &&& delivery::spells(
        effects[0]->Reply_body,
        seq![(TAG_ERROR_CODE, seq![code]), (TAG_ERROR_MSG, encode_utf8(text))],
    )
}

/// Whether nothing but the sessions and the owners may have changed.
pub open spec fn same_streams(st: ServerModel, after: ServerModel) -> bool {
    &&& after.mediator_pub == st.mediator_pub
    &&& after.controls == st.controls
    &&& after.next_id == st.next_id
    &&& after.registry.mcu_enabled == st.registry.mcu_enabled
}

// ── Hello, and the stream itself ─────────────────────────────────────────

/// A version probe changes nothing, and is answered with an empty payload.
pub proof fn hello_is_answered(
    st: ServerModel,
    cid: ControlId,
    remote: Seq<u8>,
    body: Seq<u8>,
    clock: Clock,
    id: Seq<u8>,
)
    ensures
        ({
            let event = ControlEventModel::Frame { cmd: CMD_HELLO, body };
            let (after, effects) = st.control_step(cid, remote, event, clock, id);
            &&& after == st
            &&& effects.len() == 1
            &&& effects[0] is Reply
            &&& effects[0]->Reply_cmd == CMD_HELLO_ACK
            &&& effects[0]->Reply_body.len() == 0
        }),
{
}

/// A stream that opens is live from then on, with the key that it authenticated
/// with. Nothing else changes, and nothing is sent.
pub proof fn opening_makes_a_stream_live(
    st: ServerModel,
    cid: ControlId,
    remote: Seq<u8>,
    clock: Clock,
    id: Seq<u8>,
)
    ensures
        ({
            let event = ControlEventModel::Opened;
            let (after, effects) = st.control_step(cid, remote, event, clock, id);
            &&& effects.len() == 0
            &&& after.controls == st.controls.insert(cid, remote)
            &&& after.registry == st.registry
            &&& after.members == st.members
            &&& after.mediator_pub == st.mediator_pub
            &&& after.next_id == st.next_id
        }),
{
}

/// An id that is handed out is the one that was next, and the next one is one
/// more. Nothing else changes.
pub proof fn ids_go_up_by_one(st: ServerModel)
    ensures
        st.next_id < u64::MAX ==> st.with_id_used().next_id == st.next_id + 1,
        st.next_id == u64::MAX ==> st.with_id_used().next_id == 0,
        st.with_id_used().registry == st.registry,
        st.with_id_used().members == st.members,
        st.with_id_used().controls == st.controls,
        st.with_id_used().mediator_pub == st.mediator_pub,
{
}

// ── Refusals ─────────────────────────────────────────────────────────────

proof fn lemma_refused(
    st: ServerModel,
    cid: ControlId,
    remote: Seq<u8>,
    cmd: u8,
    body: Seq<u8>,
    clock: Clock,
    id: Seq<u8>,
)
    requires
        body.len() <= MAX_CONTROL_FRAME,
        laws::refusal_of(st, remote, cmd, body) is Some,
        laws::refusal_of(st, remote, cmd, body)->Some_0.1.len() > 0,
    ensures
        ({
            let event = ControlEventModel::Frame { cmd, body };
            let (code, text) = laws::refusal_of(st, remote, cmd, body)->Some_0;
            let (after, effects) = st.control_step(cid, remote, event, clock, id);
            after == st && refused_with(effects, code, text)
        }),
{
    let (code, text) = laws::refusal_of(st, remote, cmd, body)->Some_0;
    laws::refused_request_changes_nothing(st, cid, remote, cmd, body, clock, id);
    laws::lemma_refusal_short(st, remote, cmd, body);
    delivery::error_says(code, text);
}

/// A command that is not known is refused, and changes nothing.
pub proof fn unknown_commands_are_refused(
    st: ServerModel,
    cid: ControlId,
    remote: Seq<u8>,
    cmd: u8,
    body: Seq<u8>,
    clock: Clock,
    id: Seq<u8>,
)
    requires
        cmd != 0x01 && cmd != 0x10 && cmd != 0x12 && cmd != 0x14,
        body.len() <= MAX_CONTROL_FRAME,
    ensures
        ({
            let event = ControlEventModel::Frame { cmd, body };
            let (after, effects) = st.control_step(cid, remote, event, clock, id);
            after == st && refused_with(
                effects,
                ERR_MALFORMED,
                "unknown cmd 0x"@ + text::hex_byte(cmd),
            )
        }),
{
    reveal_strlit("unknown cmd 0x");
    lemma_refused(st, cid, remote, cmd, body, clock, id);
}

/// A create, join or leave request whose body is not a TLV payload is refused,
/// and changes nothing.
pub proof fn broken_bodies_are_refused(
    st: ServerModel,
    cid: ControlId,
    remote: Seq<u8>,
    cmd: u8,
    body: Seq<u8>,
    clock: Clock,
    id: Seq<u8>,
)
    requires
        cmd == CMD_CALL_CREATE || cmd == CMD_CALL_JOIN || cmd == CMD_CALL_LEAVE,
        body.len() <= MAX_CONTROL_FRAME,
        tlv::parse_records(body) is Err,
    ensures
        ({
            let event = ControlEventModel::Frame { cmd, body };
            let (after, effects) = st.control_step(cid, remote, event, clock, id);
            after == st && refused_with(
                effects,
                ERR_MALFORMED,
                "bad tlv: "@ + tlv::parse_records(body)->Err_0.text(),
            )
        }),
{
    reveal_strlit("bad tlv: ");
    lemma_refused(st, cid, remote, cmd, body, clock, id);
}

/// A join or leave request that names no session, or one by an id of another
/// length, is refused, and changes nothing.
pub proof fn unnamed_sessions_are_refused(
    st: ServerModel,
    cid: ControlId,
    remote: Seq<u8>,
    cmd: u8,
    body: Seq<u8>,
    clock: Clock,
    id: Seq<u8>,
)
    requires
        cmd == CMD_CALL_JOIN || cmd == CMD_CALL_LEAVE,
        body.len() <= MAX_CONTROL_FRAME,
        tlv::parse_records(body) is Ok,
        !(values(body).contains_key(TAG_SESSION_ID) && values(body)[TAG_SESSION_ID].len() == 16),
    ensures
        ({
            let event = ControlEventModel::Frame { cmd, body };
            let (after, effects) = st.control_step(cid, remote, event, clock, id);
            after == st && refused_with(
                effects,
                ERR_MALFORMED,
                if values(body).contains_key(TAG_SESSION_ID) {
                    "tag 0x"@ + text::hex_byte(1) + ": expected "@ + text::decimal(16)
                        + " bytes, got "@ + text::decimal(values(body)[TAG_SESSION_ID].len())
                } else {
                    "missing tag 0x"@ + text::hex_byte(1)
                },
            )
        }),
{
    reveal_strlit("tag 0x");
    reveal_strlit("missing tag 0x");
    lemma_refused(st, cid, remote, cmd, body, clock, id);
}

// ── Create ───────────────────────────────────────────────────────────────

/// A create request for a mode that sessions can be made in makes a session
/// under the id that it is given: new, in that mode, with nobody in it. Every
/// session under another id, and every participant and owner of it, stays as it
/// was. The client is told the id, the mode and the time.
pub proof fn create_adds_a_session(
    st: ServerModel,
    cid: ControlId,
    remote: Seq<u8>,
    body: Seq<u8>,
    clock: Clock,
    id: Seq<u8>,
    b: u8,
)
    requires
        st.wf(),
        id.len() == SESSION_ID_LEN,
        tlv::parse_records(body) is Ok,
        values(body).contains_key(TAG_MODE),
        values(body)[TAG_MODE] == seq![b],
        b == 0 || (b == 1 && st.registry.mcu_enabled),
    ensures
        ({
            let event = ControlEventModel::Frame { cmd: CMD_CALL_CREATE, body };
            let (after, effects) = st.control_step(cid, remote, event, clock, id);
            let t = after.registry.session(id)->Some_0;
            &&& after.registry.session(id) is Some
            &&& t.id == id
            &&& t.mode == (if b == 0 {
                CallMode::Sfu
            } else {
                CallMode::Mcu
            })
            &&& t.created_at == clock.unix
            &&& t.participants.len() == 0
            &&& t.empty_since == Some(clock.monotonic)
            &&& forall|other: Seq<u8>|
                other != id ==> #[trigger] after.registry.session(other) == st.registry.session(
                    other,
                )
            &&& after.members == st.members
            &&& same_streams(st, after)
            &&& effects.len() == 1
            &&& effects[0] is Reply
            &&& effects[0]->Reply_cmd == CMD_CALL_CREATE_ACK
            &&& exists|v: Seq<u8>| #[trigger]
                delivery::is_time(v, clock.unix) && delivery::spells(
                    effects[0]->Reply_body,
                    seq![(TAG_SESSION_ID, id), (TAG_MODE, seq![b]), (TAG_CREATED_AT, v)],
                )
        }),
{
    let event = ControlEventModel::Frame { cmd: CMD_CALL_CREATE, body };
    let (after, effects) = st.control_step(cid, remote, event, clock, id);
    crate::bytes::lemma_be_single(b);
    let mode = CallMode::of_wire(b)->Some_0;
    assert(handlers::create_request(body) == Ok::<CallMode, Seq<char>>(mode));
    let fresh = SessionModel::fresh(id, mode, clock);
    keyed::put_then_lookup(st.registry.sessions, fresh, id);
    assert forall|other: Seq<u8>| other != id implies #[trigger] after.registry.session(other)
        == st.registry.session(other) by {
        keyed::put_then_lookup(st.registry.sessions, fresh, other);
    }
    delivery::create_ack_says(id, b, clock.unix);
}

/// A create request for any other mode, or for none, is refused, and changes
/// nothing.
pub proof fn create_can_be_refused(
    st: ServerModel,
    cid: ControlId,
    remote: Seq<u8>,
    body: Seq<u8>,
    clock: Clock,
    id: Seq<u8>,
)
    requires
        body.len() <= MAX_CONTROL_FRAME,
        tlv::parse_records(body) is Ok,
    ensures
        ({
            let event = ControlEventModel::Frame { cmd: CMD_CALL_CREATE, body };
            let (after, effects) = st.control_step(cid, remote, event, clock, id);
            let m = values(body);
            &&& !m.contains_key(TAG_MODE) ==> after == st && refused_with(
                effects,
                ERR_MALFORMED,
                "missing tag 0x"@ + text::hex_byte(5),
            )
            &&& m.contains_key(TAG_MODE) && m[TAG_MODE].len() != 1 ==> after == st
                && refused_with(
                effects,
                ERR_MALFORMED,
                "tag 0x"@ + text::hex_byte(5) + ": expected "@ + text::decimal(1)
                    + " bytes, got "@ + text::decimal(m[TAG_MODE].len()),
            )
            &&& m.contains_key(TAG_MODE) && m[TAG_MODE].len() == 1 && m[TAG_MODE][0] > 1
                ==> after == st && refused_with(
                effects,
                ERR_MALFORMED,
                "bad mode "@ + text::decimal(m[TAG_MODE][0] as nat),
            )
            &&& m.contains_key(TAG_MODE) && m[TAG_MODE].len() == 1 && m[TAG_MODE][0] == 1
                && !st.registry.mcu_enabled ==> after == st && refused_with(
                effects,
                ERR_MODE_UNSUPPORTED,
                "mode unsupported"@,
            )
        }),
{
    let m = values(body);
    reveal_strlit("missing tag 0x");
    reveal_strlit("tag 0x");
    reveal_strlit("bad mode ");
    reveal_strlit("mode unsupported");
    if m.contains_key(TAG_MODE) && m[TAG_MODE].len() == 1 {
        let b = m[TAG_MODE][0];
        assert(m[TAG_MODE] =~= seq![b]);
        crate::bytes::lemma_be_single(b);
    }
    if laws::refusal_of(st, remote, CMD_CALL_CREATE, body) is Some {
        lemma_refused(st, cid, remote, CMD_CALL_CREATE, body, clock, id);
    }
}

// ── Join ─────────────────────────────────────────────────────────────────

/// What a join request asks for is what stands under its tags, whatever other
/// tags there are. A client that does not give an identity of 32 bytes goes by
/// the key of its stream, and one that gives no readable name by the first
/// digits of its identity.
pub proof fn join_asks_for_what_it_says(
    body: Seq<u8>,
    remote: Seq<u8>,
    who: Seq<u8>,
    name: Seq<char>,
    audio: Seq<u8>,
)
    requires
        remote.len() == PUBKEY_LEN,
        tlv::parse_records(body) is Ok,
        values(body).contains_key(TAG_SESSION_ID),
        values(body)[TAG_SESSION_ID].len() == 16,
        values(body).contains_key(TAG_IDENTITY_PUBKEY) && values(body)[TAG_IDENTITY_PUBKEY].len()
            == 32 ==> who == values(body)[TAG_IDENTITY_PUBKEY],
        !(values(body).contains_key(TAG_IDENTITY_PUBKEY)
            && values(body)[TAG_IDENTITY_PUBKEY].len() == 32) ==> who == remote,
        values(body).contains_key(TAG_DISPLAY_NAME) && valid_utf8(values(body)[TAG_DISPLAY_NAME])
            ==> name == decode_utf8(values(body)[TAG_DISPLAY_NAME]),
        !(values(body).contains_key(TAG_DISPLAY_NAME) && valid_utf8(
            values(body)[TAG_DISPLAY_NAME],
        )) ==> name == text::hex_lower(who.subrange(0, 4)),
        values(body).contains_key(TAG_AUDIO_CONFIG) ==> audio == values(body)[TAG_AUDIO_CONFIG],
        !values(body).contains_key(TAG_AUDIO_CONFIG) ==> audio.len() == 0,
    ensures
        encode_utf8(name).len() <= 64 && audio.len() <= 64 ==> {
            let r = handlers::join_request(body, remote);
            &&& r is Ok
            &&& r->Ok_0.session_id == values(body)[TAG_SESSION_ID]
            &&& r->Ok_0.identity == who
            &&& r->Ok_0.display_name == name
            &&& r->Ok_0.audio_config == audio
        },
        encode_utf8(name).len() > 64 ==> handlers::join_request(body, remote) == Err::<
            handlers::JoinModel,
            Seq<char>,
        >("display name too long"@),
        encode_utf8(name).len() <= 64 && audio.len() > 64 ==> handlers::join_request(body, remote)
            == Err::<handlers::JoinModel, Seq<char>>("audio_config too long"@),
{
    assert(who.take(4) =~= who.subrange(0, 4));
    if !values(body).contains_key(TAG_AUDIO_CONFIG) {
        assert(audio =~= Seq::<u8>::empty());
    }
}

/// What a client writes into a join request is what is read: the session, the
/// identity, the name and the audio configuration come back, whatever stands
/// before them.
pub proof fn join_request_reads_back(
    before: Seq<tlv::Record>,
    session: Seq<u8>,
    who: Seq<u8>,
    name: Seq<char>,
    audio: Seq<u8>,
    remote: Seq<u8>,
)
    requires
        tlv::all_writable(before),
        session.len() == 16,
        who.len() == 32,
        encode_utf8(name).len() <= 64,
        audio.len() <= 64,
        remote.len() == PUBKEY_LEN,
    ensures
        ({
            let records = before.push((TAG_SESSION_ID, session)).push(
                (TAG_IDENTITY_PUBKEY, who),
            ).push((TAG_DISPLAY_NAME, encode_utf8(name))).push((TAG_AUDIO_CONFIG, audio));
            let r = handlers::join_request(tlv::encode_records(records), remote);
            &&& r is Ok
            &&& r->Ok_0.session_id == session
            &&& r->Ok_0.identity == who
            &&& r->Ok_0.display_name == name
            &&& r->Ok_0.audio_config == audio
        }),
{
    let r1 = before.push((TAG_SESSION_ID, session));
    let r2 = r1.push((TAG_IDENTITY_PUBKEY, who));
    let r3 = r2.push((TAG_DISPLAY_NAME, encode_utf8(name)));
    let r4 = r3.push((TAG_AUDIO_CONFIG, audio));
    tlv::lemma_encode_push(before, (TAG_SESSION_ID, session));
    tlv::lemma_encode_push(r1, (TAG_IDENTITY_PUBKEY, who));
    tlv::lemma_encode_push(r2, (TAG_DISPLAY_NAME, encode_utf8(name)));
    tlv::lemma_encode_push(r3, (TAG_AUDIO_CONFIG, audio));
    tlv::records_roundtrip(r4);
    tlv::lemma_last_push(before, (TAG_SESSION_ID, session));
    tlv::lemma_last_push(r1, (TAG_IDENTITY_PUBKEY, who));
    tlv::lemma_last_push(r2, (TAG_DISPLAY_NAME, encode_utf8(name)));
    tlv::lemma_last_push(r3, (TAG_AUDIO_CONFIG, audio));
    encode_utf8_valid_utf8(name);
    encode_utf8_decode_utf8(name);
    let body = tlv::encode_records(r4);
    let m = values(body);
    assert(m[TAG_SESSION_ID] == session);
    assert(m[TAG_IDENTITY_PUBKEY] == who);
    join_asks_for_what_it_says(body, remote, who, name, audio);
}

/// Whether everybody in a list is told, in order and once each.
pub open spec fn all_told(
    effects: Seq<EffectModel>,
    ps: Seq<ParticipantModel>,
    session: Seq<u8>,
    event: u8,
    p: ParticipantModel,
) -> bool {
    &&& effects.len() == ps.len()
    &&& forall|i: int|
        0 <= i < ps.len() ==> tells(
            #[trigger] effects[i],
            ps[i].control_id,
            session,
            event,
            p,
        )
}

/// In a server that is in order, the notices of an event go to everybody in the
/// session.
proof fn lemma_notices(st: ServerModel, session: Seq<u8>, event: u8, p: ParticipantModel)
    requires
        st.consistent(),
        st.registry.session(session) is Some,
        p.within_limits(),
    ensures
        ({
            let s = st.registry.session(session)->Some_0;
            all_told(
                st.event_notices(s, event, p.pubkey, p.display_name, None),
                s.participants,
                session,
                event,
                p,
            )
        }),
{
    let s = st.registry.session(session)->Some_0;
    laws::lemma_session_members(st, session);
    laws::lemma_all_streams(st, s.id, s.participants);
    delivery::event_says(s.id, event, p.pubkey, p.display_name);
}

/// A join request for a session with room registers the client under the
/// identity that it advertises, with the name and the audio configuration that
/// it gives, and with the routing key and the stream that it came on. A client
/// that was there already keeps its place; a new one comes last. Nobody else is
/// touched, in this session or in another. The client gets the acknowledgement
/// first, then the list of everybody in the session; and everybody in it, the
/// client among them, is told.
pub proof fn join_registers_the_client(
    st: ServerModel,
    cid: ControlId,
    remote: Seq<u8>,
    body: Seq<u8>,
    clock: Clock,
    id: Seq<u8>,
    who: Seq<u8>,
    name: Seq<char>,
    audio: Seq<u8>,
)
    requires
        st.consistent(),
        st.live(cid),
        st.controls[cid] == remote,
        remote.len() == PUBKEY_LEN,
        tlv::parse_records(body) is Ok,
        values(body).contains_key(TAG_SESSION_ID),
        values(body)[TAG_SESSION_ID].len() == 16,
        values(body).contains_key(TAG_IDENTITY_PUBKEY) && values(body)[TAG_IDENTITY_PUBKEY].len()
            == 32 ==> who == values(body)[TAG_IDENTITY_PUBKEY],
        !(values(body).contains_key(TAG_IDENTITY_PUBKEY)
            && values(body)[TAG_IDENTITY_PUBKEY].len() == 32) ==> who == remote,
        values(body).contains_key(TAG_DISPLAY_NAME) && valid_utf8(values(body)[TAG_DISPLAY_NAME])
            ==> name == decode_utf8(values(body)[TAG_DISPLAY_NAME]),
        !(values(body).contains_key(TAG_DISPLAY_NAME) && valid_utf8(
            values(body)[TAG_DISPLAY_NAME],
        )) ==> name == text::hex_lower(who.subrange(0, 4)),
        values(body).contains_key(TAG_AUDIO_CONFIG) ==> audio == values(body)[TAG_AUDIO_CONFIG],
        !values(body).contains_key(TAG_AUDIO_CONFIG) ==> audio.len() == 0,
        encode_utf8(name).len() <= 64,
        audio.len() <= 64,
        st.registry.session(values(body)[TAG_SESSION_ID]) is Some,
        st.registry.session(values(body)[TAG_SESSION_ID])->Some_0.participants.len() < 16
            || st.participant(values(body)[TAG_SESSION_ID], who) is Some,
    ensures
        ({
            let sid = values(body)[TAG_SESSION_ID];
            let event = ControlEventModel::Frame { cmd: CMD_CALL_JOIN, body };
            let (after, effects) = st.control_step(cid, remote, event, clock, id);
            let s = st.registry.session(sid)->Some_0;
            let t = after.registry.session(sid)->Some_0;
            let p = after.participant(sid, who)->Some_0;
            &&& after.participant(sid, who) is Some
            &&& p.pubkey == who
            &&& p.ygg_pubkey == remote
            &&& p.display_name == name
            &&& p.audio_config == audio
            &&& p.joined_at == clock.unix
            &&& p.control_id == cid
            &&& after.owner(sid, who) == Some(cid)
            &&& after.registry.session(sid) is Some
            &&& t.id == s.id && t.mode == s.mode && t.created_at == s.created_at
            &&& t.empty_since is None
            &&& st.participant(sid, who) is None ==> t.participants == s.participants.push(p)
            &&& st.participant(sid, who) is Some ==> t.participants.len() == s.participants.len()
            &&& st.participant(sid, who) is Some ==> forall|i: int|
                0 <= i < s.participants.len() ==> #[trigger] t.participants[i] == (
                if s.participants[i].pubkey == who {
                    p
                } else {
                    s.participants[i]
                })
            &&& forall|other: Seq<u8>|
                other != sid ==> #[trigger] after.registry.session(other) == st.registry.session(
                    other,
                )
            &&& forall|other: Seq<u8>, pk: Seq<u8>|
                other != sid || pk != who ==> #[trigger] after.owner(other, pk) == st.owner(
                    other,
                    pk,
                )
            &&& same_streams(st, after)
            &&& effects.len() == 2 + t.participants.len()
            &&& effects[0] is Reply
            &&& effects[0]->Reply_cmd == CMD_CALL_JOIN_ACK
            &&& delivery::spells(
                effects[0]->Reply_body,
                seq![(TAG_SESSION_ID, sid), (TAG_MODE, seq![s.mode.wire()])],
            )
            &&& effects[1] is Send
            &&& effects[1]->Send_to == cid
            &&& effects[1]->Send_cmd == CMD_CALL_PARTICIPANT_UPDATE
            &&& delivery::list_of(effects[1]->Send_body, sid, t.participants)
            &&& all_told(effects.skip(2), t.participants, sid, EVT_JOINED, p)
        }),
{
    let sid = values(body)[TAG_SESSION_ID];
    let event = ControlEventModel::Frame { cmd: CMD_CALL_JOIN, body };
    let (after, effects) = st.control_step(cid, remote, event, clock, id);
    join_asks_for_what_it_says(body, remote, who, name, audio);
    let req = handlers::join_request(body, remote)->Ok_0;
    let s = st.registry.session(sid)->Some_0;
    keyed::lemma_found(st.registry.sessions, sid);
    assert(s.has(who) <==> st.participant(sid, who) is Some);
    assert(st.registry.refusal(sid, who) is None);
    consistency::lemma_join_request_ok(st, cid, remote, body, clock);
    let p = req.participant(cid, remote, clock);
    consistency::lemma_joined(st, s, p);
    assert(after == st.with_joined(s, p));
    let t = s.joined(p);
    assert(after.registry.session(sid) == Some(t));
    assert(after.participant(sid, who) == Some(p));
    assert(after.owner(sid, who) == Some(cid));
    assert(s.wf());
    if s.has(who) {
        keyed::lemma_found(s.participants, who);
        let at = keyed::place(s.participants, who);
        assert forall|i: int| 0 <= i < s.participants.len() implies #[trigger] t.participants[i]
            == (if s.participants[i].pubkey == who {
            p
        } else {
            s.participants[i]
        }) by {
            if s.participants[i].pubkey == who {
                keyed::lemma_place(s.participants, i);
            }
        }
    }
    // What is sent.
    let ack = handlers::reply(
        CMD_CALL_JOIN_ACK,
        tlv::encode_records(protocol::join_ack_records(sid, s.mode.wire())),
    );
    let list = after.list_notice(t, who);
    let told = after.event_notices(t, EVT_JOINED, who, name, None);
    assert(effects == ack + list + told);
    assert(after.live(cid));
    assert(list.len() == 1);
    delivery::join_ack_says(sid, s.mode.wire());
    delivery::list_tells_of_the_participants(after, sid);
    lemma_notices(after, sid, EVT_JOINED, p);
    assert(effects[0] == ack[0]);
    assert(effects[1] == list[0]);
    assert(effects.skip(2) =~= told);
}

/// A join request registers the client in the same way whatever else the server
/// holds, and whether or not its stream is live yet: what it becomes part of, and
/// that it is acknowledged first, does not depend on that.
pub proof fn join_registers_on_any_stream(
    st: ServerModel,
    cid: ControlId,
    remote: Seq<u8>,
    body: Seq<u8>,
    clock: Clock,
    id: Seq<u8>,
    who: Seq<u8>,
    name: Seq<char>,
    audio: Seq<u8>,
)
    requires
        st.wf(),
        remote.len() == PUBKEY_LEN,
        tlv::parse_records(body) is Ok,
        values(body).contains_key(TAG_SESSION_ID),
        values(body)[TAG_SESSION_ID].len() == 16,
        values(body).contains_key(TAG_IDENTITY_PUBKEY) && values(body)[TAG_IDENTITY_PUBKEY].len()
            == 32 ==> who == values(body)[TAG_IDENTITY_PUBKEY],
        !(values(body).contains_key(TAG_IDENTITY_PUBKEY)
            && values(body)[TAG_IDENTITY_PUBKEY].len() == 32) ==> who == remote,
        values(body).contains_key(TAG_DISPLAY_NAME) && valid_utf8(values(body)[TAG_DISPLAY_NAME])
            ==> name == decode_utf8(values(body)[TAG_DISPLAY_NAME]),
        !(values(body).contains_key(TAG_DISPLAY_NAME) && valid_utf8(
            values(body)[TAG_DISPLAY_NAME],
        )) ==> name == text::hex_lower(who.subrange(0, 4)),
        values(body).contains_key(TAG_AUDIO_CONFIG) ==> audio == values(body)[TAG_AUDIO_CONFIG],
        !values(body).contains_key(TAG_AUDIO_CONFIG) ==> audio.len() == 0,
        encode_utf8(name).len() <= 64,
        audio.len() <= 64,
        st.registry.session(values(body)[TAG_SESSION_ID]) is Some,
        st.registry.session(values(body)[TAG_SESSION_ID])->Some_0.participants.len() < 16
            || st.participant(values(body)[TAG_SESSION_ID], who) is Some,
    ensures
        ({
            let sid = values(body)[TAG_SESSION_ID];
            let event = ControlEventModel::Frame { cmd: CMD_CALL_JOIN, body };
            let (after, effects) = st.control_step(cid, remote, event, clock, id);
            let s = st.registry.session(sid)->Some_0;
            let p = ParticipantModel {
                pubkey: who,
                ygg_pubkey: remote,
                display_name: name,
                audio_config: audio,
                joined_at: clock.unix,
                control_id: cid,
            };
            &&& after.registry.session(sid) is Some
            &&& after.registry.session(sid)->Some_0.mode == s.mode
            &&& after.registry.session(sid)->Some_0.created_at == s.created_at
            &&& after.registry.session(sid)->Some_0.empty_since is None
            &&& forall|pk: Seq<u8>| #[trigger]
                after.participant(sid, pk) == (if pk == who {
                    Some(p)
                } else {
                    st.participant(sid, pk)
                })
            &&& forall|other: Seq<u8>|
                other != sid ==> #[trigger] after.registry.session(other) == st.registry.session(
                    other,
                )
            &&& forall|other: Seq<u8>, pk: Seq<u8>| #[trigger]
                after.owner(other, pk) == (if other == sid && pk == who {
                    Some(cid)
                } else {
                    st.owner(other, pk)
                })
            &&& same_streams(st, after)
            &&& effects.len() > 0
            &&& effects[0] is Reply
            &&& effects[0]->Reply_cmd == CMD_CALL_JOIN_ACK
            &&& delivery::spells(
                effects[0]->Reply_body,
                seq![(TAG_SESSION_ID, sid), (TAG_MODE, seq![s.mode.wire()])],
            )
        }),
{
    let sid = values(body)[TAG_SESSION_ID];
    let event = ControlEventModel::Frame { cmd: CMD_CALL_JOIN, body };
    let (after, effects) = st.control_step(cid, remote, event, clock, id);
    join_asks_for_what_it_says(body, remote, who, name, audio);
    let req = handlers::join_request(body, remote)->Ok_0;
    let s = st.registry.session(sid)->Some_0;
    keyed::lemma_found(st.registry.sessions, sid);
    assert(s.wf());
    assert(s.has(who) <==> st.participant(sid, who) is Some);
    assert(st.registry.refusal(sid, who) is None);
    let p = req.participant(cid, remote, clock);
    let t = s.joined(p);
    let m = MemberModel { session: sid, pubkey: who, owner: cid };
    assert(after == st.with_joined(s, p));
    keyed::put_then_lookup(st.registry.sessions, t, sid);
    assert(after.registry.session(sid) == Some(t));
    assert forall|pk: Seq<u8>| #[trigger] after.participant(sid, pk) == (if pk == who {
        Some(p)
    } else {
        st.participant(sid, pk)
    }) by {
        keyed::put_then_lookup(s.participants, p, pk);
    }
    assert forall|other: Seq<u8>| other != sid implies #[trigger] after.registry.session(other)
        == st.registry.session(other) by {
        keyed::put_then_lookup(st.registry.sessions, t, other);
    }
    assert forall|other: Seq<u8>, pk: Seq<u8>| #[trigger] after.owner(other, pk) == (if other
        == sid && pk == who {
        Some(cid)
    } else {
        st.owner(other, pk)
    }) by {
        keyed::put_then_lookup(st.members, m, (other, pk));
    }
    delivery::join_ack_says(sid, s.mode.wire());
    let ack = handlers::reply(
        CMD_CALL_JOIN_ACK,
        tlv::encode_records(protocol::join_ack_records(sid, s.mode.wire())),
    );
    assert(effects[0] == ack[0]);
}

/// From a join on, the client takes part in the media of its session: what any
/// other participant sends is forwarded to it, at the key that its stream
/// authenticated with, and what it sends itself goes to every other participant,
/// at the routing key of that participant.
pub proof fn joined_client_is_reached(
    st: ServerModel,
    cid: ControlId,
    remote: Seq<u8>,
    body: Seq<u8>,
    clock: Clock,
    id: Seq<u8>,
    who: Seq<u8>,
    name: Seq<char>,
    audio: Seq<u8>,
    data: Seq<u8>,
)
    requires
        st.consistent(),
        st.live(cid),
        st.controls[cid] == remote,
        remote.len() == PUBKEY_LEN,
        tlv::parse_records(body) is Ok,
        values(body).contains_key(TAG_SESSION_ID),
        values(body)[TAG_SESSION_ID].len() == 16,
        values(body).contains_key(TAG_IDENTITY_PUBKEY) && values(body)[TAG_IDENTITY_PUBKEY].len()
            == 32 ==> who == values(body)[TAG_IDENTITY_PUBKEY],
        !(values(body).contains_key(TAG_IDENTITY_PUBKEY)
            && values(body)[TAG_IDENTITY_PUBKEY].len() == 32) ==> who == remote,
        values(body).contains_key(TAG_DISPLAY_NAME) && valid_utf8(values(body)[TAG_DISPLAY_NAME])
            ==> name == decode_utf8(values(body)[TAG_DISPLAY_NAME]),
        !(values(body).contains_key(TAG_DISPLAY_NAME) && valid_utf8(
            values(body)[TAG_DISPLAY_NAME],
        )) ==> name == text::hex_lower(who.subrange(0, 4)),
        values(body).contains_key(TAG_AUDIO_CONFIG) ==> audio == values(body)[TAG_AUDIO_CONFIG],
        !values(body).contains_key(TAG_AUDIO_CONFIG) ==> audio.len() == 0,
        encode_utf8(name).len() <= 64,
        audio.len() <= 64,
        st.registry.session(values(body)[TAG_SESSION_ID]) is Some,
        st.registry.session(values(body)[TAG_SESSION_ID])->Some_0.participants.len() < 16
            || st.participant(values(body)[TAG_SESSION_ID], who) is Some,
        st.registry.session(values(body)[TAG_SESSION_ID])->Some_0.mode == CallMode::Sfu,
        data.len() >= 54,
        data[0] == 1,
        data[1] == 1,
        data.subrange(2, 18) == values(body)[TAG_SESSION_ID],
    ensures
        ({
            let sid = values(body)[TAG_SESSION_ID];
            let sender = data.subrange(18, 50);
            let event = ControlEventModel::Frame { cmd: CMD_CALL_JOIN, body };
            let after = st.control_step(cid, remote, event, clock, id).0;
            let out = after.packet_fate(data)->Forward_0;
            &&& sender != who && st.participant(sid, sender) is Some ==> {
                &&& after.packet_fate(data) is Forward
                &&& exists|k: int|
                    0 <= k < out.len() && (#[trigger] out[k]).to == remote && out[k].identity
                        == who && out[k].data == data
            }
            &&& sender == who ==> forall|pk: Seq<u8>|
                pk != who && (#[trigger] st.participant(sid, pk)) is Some
                    ==> after.packet_fate(data) is Forward && exists|k: int|
                    0 <= k < out.len() && (#[trigger] out[k]).to == st.participant(
                        sid,
                        pk,
                    )->Some_0.ygg_pubkey && out[k].identity == pk && out[k].data == data
        }),
{
    let sid = values(body)[TAG_SESSION_ID];
    let sender = data.subrange(18, 50);
    let event = ControlEventModel::Frame { cmd: CMD_CALL_JOIN, body };
    let after = st.control_step(cid, remote, event, clock, id).0;
    let s = st.registry.session(sid)->Some_0;
    join_registers_the_client(st, cid, remote, body, clock, id, who, name, audio);
    let t = after.registry.session(sid)->Some_0;
    let p = after.participant(sid, who)->Some_0;
    lemma_join_keeps_order(st, cid, remote, body, clock, id, who, name, audio);
    delivery::fate_is_decided(after, data);
    keyed::lemma_found(t.participants, who);
    let at = keyed::place(t.participants, who);
    assert(t.participants[at] == p);
    if sender != who && st.participant(sid, sender) is Some {
        assert(after.participant(sid, sender) == st.participant(sid, sender));
        keyed::lemma_found(t.participants, sender);
        let from = keyed::place(t.participants, sender);
        assert(t.participants[from].pubkey == sender);
        assert(t.participants.len() > 1);
        delivery::forwarded_to_the_routing_keys(after, data);
    }
    if sender == who {
        assert forall|pk: Seq<u8>|
            pk != who && (#[trigger] st.participant(sid, pk)) is Some implies after.packet_fate(
            data,
        ) is Forward && exists|k: int|
            0 <= k < after.packet_fate(data)->Forward_0.len() && (
            #[trigger] after.packet_fate(data)->Forward_0[k]).to == st.participant(
                sid,
                pk,
            )->Some_0.ygg_pubkey && after.packet_fate(data)->Forward_0[k].identity == pk
                && after.packet_fate(data)->Forward_0[k].data == data by {
            assert(after.participant(sid, pk) == st.participant(sid, pk));
            keyed::lemma_found(t.participants, pk);
            let i = keyed::place(t.participants, pk);
            assert(t.participants[i].pubkey == pk);
            assert(t.participants[at].pubkey == who);
            assert(t.participants.len() > 1);
            delivery::forwarded_to_the_routing_keys(after, data);
        }
    }
}

/// A join leaves the server in order, and everybody else where they were.
proof fn lemma_join_keeps_order(
    st: ServerModel,
    cid: ControlId,
    remote: Seq<u8>,
    body: Seq<u8>,
    clock: Clock,
    id: Seq<u8>,
    who: Seq<u8>,
    name: Seq<char>,
    audio: Seq<u8>,
)
    requires
        st.consistent(),
        st.live(cid),
        st.controls[cid] == remote,
        remote.len() == PUBKEY_LEN,
        tlv::parse_records(body) is Ok,
        values(body).contains_key(TAG_SESSION_ID),
        values(body)[TAG_SESSION_ID].len() == 16,
        values(body).contains_key(TAG_IDENTITY_PUBKEY) && values(body)[TAG_IDENTITY_PUBKEY].len()
            == 32 ==> who == values(body)[TAG_IDENTITY_PUBKEY],
        !(values(body).contains_key(TAG_IDENTITY_PUBKEY)
            && values(body)[TAG_IDENTITY_PUBKEY].len() == 32) ==> who == remote,
        values(body).contains_key(TAG_DISPLAY_NAME) && valid_utf8(values(body)[TAG_DISPLAY_NAME])
            ==> name == decode_utf8(values(body)[TAG_DISPLAY_NAME]),
        !(values(body).contains_key(TAG_DISPLAY_NAME) && valid_utf8(
            values(body)[TAG_DISPLAY_NAME],
        )) ==> name == text::hex_lower(who.subrange(0, 4)),
        values(body).contains_key(TAG_AUDIO_CONFIG) ==> audio == values(body)[TAG_AUDIO_CONFIG],
        !values(body).contains_key(TAG_AUDIO_CONFIG) ==> audio.len() == 0,
        encode_utf8(name).len() <= 64,
        audio.len() <= 64,
        st.registry.session(values(body)[TAG_SESSION_ID]) is Some,
        st.registry.session(values(body)[TAG_SESSION_ID])->Some_0.participants.len() < 16
            || st.participant(values(body)[TAG_SESSION_ID], who) is Some,
    ensures
        ({
            let sid = values(body)[TAG_SESSION_ID];
            let event = ControlEventModel::Frame { cmd: CMD_CALL_JOIN, body };
            let after = st.control_step(cid, remote, event, clock, id).0;
            &&& after.consistent()
            &&& forall|pk: Seq<u8>|
                pk != who ==> #[trigger] after.participant(sid, pk) == st.participant(sid, pk)
        }),
{
    let sid = values(body)[TAG_SESSION_ID];
    join_asks_for_what_it_says(body, remote, who, name, audio);
    let req = handlers::join_request(body, remote)->Ok_0;
    let s = st.registry.session(sid)->Some_0;
    keyed::lemma_found(st.registry.sessions, sid);
    assert(s.has(who) <==> st.participant(sid, who) is Some);
    assert(st.registry.refusal(sid, who) is None);
    consistency::lemma_join_request_ok(st, cid, remote, body, clock);
    consistency::lemma_joined(st, s, req.participant(cid, remote, clock));
}

/// A join request is refused, and changes nothing, where the name or the audio
/// configuration is too long, where there is no such session, and where the
/// session is full and the identity does not take part.
pub proof fn join_can_be_refused(
    st: ServerModel,
    cid: ControlId,
    remote: Seq<u8>,
    body: Seq<u8>,
    clock: Clock,
    id: Seq<u8>,
    who: Seq<u8>,
    name: Seq<char>,
    audio: Seq<u8>,
)
    requires
        remote.len() == PUBKEY_LEN,
        body.len() <= MAX_CONTROL_FRAME,
        tlv::parse_records(body) is Ok,
        values(body).contains_key(TAG_SESSION_ID),
        values(body)[TAG_SESSION_ID].len() == 16,
        values(body).contains_key(TAG_IDENTITY_PUBKEY) && values(body)[TAG_IDENTITY_PUBKEY].len()
            == 32 ==> who == values(body)[TAG_IDENTITY_PUBKEY],
        !(values(body).contains_key(TAG_IDENTITY_PUBKEY)
            && values(body)[TAG_IDENTITY_PUBKEY].len() == 32) ==> who == remote,
        values(body).contains_key(TAG_DISPLAY_NAME) && valid_utf8(values(body)[TAG_DISPLAY_NAME])
            ==> name == decode_utf8(values(body)[TAG_DISPLAY_NAME]),
        !(values(body).contains_key(TAG_DISPLAY_NAME) && valid_utf8(
            values(body)[TAG_DISPLAY_NAME],
        )) ==> name == text::hex_lower(who.subrange(0, 4)),
        values(body).contains_key(TAG_AUDIO_CONFIG) ==> audio == values(body)[TAG_AUDIO_CONFIG],
        !values(body).contains_key(TAG_AUDIO_CONFIG) ==> audio.len() == 0,
    ensures
        ({
            let sid = values(body)[TAG_SESSION_ID];
            let event = ControlEventModel::Frame { cmd: CMD_CALL_JOIN, body };
            let (after, effects) = st.control_step(cid, remote, event, clock, id);
            if encode_utf8(name).len() > 64 {
                after == st && refused_with(effects, ERR_MALFORMED, "display name too long"@)
            } else if audio.len() > 64 {
                after == st && refused_with(effects, ERR_MALFORMED, "audio_config too long"@)
            } else if st.registry.session(sid) is None {
                after == st && refused_with(effects, ERR_UNKNOWN_SESSION, "unknown session"@)
            } else if st.registry.session(sid)->Some_0.participants.len() >= 16 && st.participant(
                sid,
                who,
            ) is None {
                after == st && refused_with(effects, ERR_SESSION_FULL, "session full"@)
            } else {
                true
            }
        }),
{
    reveal_strlit("display name too long");
    reveal_strlit("audio_config too long");
    reveal_strlit("unknown session");
    reveal_strlit("session full");
    join_asks_for_what_it_says(body, remote, who, name, audio);
    if laws::refusal_of(st, remote, CMD_CALL_JOIN, body) is Some {
        lemma_refused(st, cid, remote, CMD_CALL_JOIN, body, clock, id);
    }
}

// ── Leave, and the end of a stream ───────────────────────────────────────

/// Whether `p` is one of the participants that are to go: of those that `keys`
/// names, the ones that stream `cid` owns.
spec fn goes(
    keys: Seq<handlers::MemberKey>,
    cid: ControlId,
    session: Seq<u8>,
    p: ParticipantModel,
) -> bool {
    p.control_id == cid && keys.contains((session, p.pubkey))
}

/// A session without the participants that are to go. It counts as empty from
/// now on where the last of them has gone.
spec fn without_those(
    s: SessionModel,
    keys: Seq<handlers::MemberKey>,
    cid: ControlId,
    now: u64,
) -> SessionModel {
    let rest = s.participants.filter(|p: ParticipantModel| !goes(keys, cid, s.id, p));
    SessionModel {
        participants: rest,
        empty_since: if rest.len() == 0 && s.participants.len() > 0 {
            Some(now)
        } else {
            s.empty_since
        },
        ..s
    }
}

/// What becomes of each session when participants are taken out one by one.
proof fn lemma_sessions_after(
    st: ServerModel,
    keys: Seq<handlers::MemberKey>,
    cid: ControlId,
    now: u64,
    closing: Option<ControlId>,
    id: Seq<u8>,
)
    requires
        st.consistent_but_for(closing),
    ensures
        ({
            let after = st.removals_step(keys, cid, now).0;
            match st.registry.session(id) {
                None => after.registry.session(id) is None,
                Some(s) => after.registry.session(id) == Some(without_those(s, keys, cid, now)),
            }
        }),
    decreases keys.len(),
{
    consistency::lemma_removals(st, keys, cid, now, closing);
    if st.registry.session(id) is Some {
        let s = st.registry.session(id)->Some_0;
        keyed::lemma_found(st.registry.sessions, id);
        assert(s.wf() && s.id == id);
        let ps = s.participants;
        let keep = |p: ParticipantModel| !goes(keys, cid, s.id, p);
        if keys.len() == 0 {
            keyed::lemma_filter_same(ps, keep, |p: ParticipantModel| true);
            lemma_filter_all(ps);
            assert(without_those(s, keys, cid, now) =~= s);
        } else {
            let front = keys.drop_last();
            let (session, pubkey) = keys.last();
            lemma_sessions_after(st, front, cid, now, closing, id);
            consistency::lemma_removals(st, front, cid, now, closing);
            let mid = st.removals_step(front, cid, now).0;
            let u = without_those(s, front, cid, now);
            let keep_front = |p: ParticipantModel| !goes(front, cid, s.id, p);
            let other = |p: ParticipantModel| p.pubkey != pubkey;
            assert(mid.registry.session(id) == Some(u));
            lemma_keys_split(keys);
            assert forall|i: int| 0 <= i < ps.len() implies st.participant(
                id,
                (#[trigger] ps[i]).pubkey,
            ) == Some(ps[i]) && st.owner(id, ps[i].pubkey) == Some(ps[i].control_id) by {
                keyed::lemma_place(ps, i);
                assert(st.participant(id, ps[i].pubkey) == Some(ps[i]));
                assert(st.agrees(id, ps[i].pubkey, closing));
            }
            if session == id && mid.owner(session, pubkey) == Some(cid) {
                assert(mid.agrees(session, pubkey, closing));
                keyed::lemma_found(mid.registry.sessions, id);
                assert(u.wf());
                assert(u.has(pubkey));
                let w = u.left(pubkey, now);
                keyed::put_then_lookup(mid.registry.sessions, w, id);
                assert(st.removals_step(keys, cid, now).0.registry.session(id) == Some(w));
                keyed::lemma_without_is_filter(u.participants, pubkey, other);
                let both = |p: ParticipantModel| keep_front(p) && other(p);
                keyed::lemma_filter_twice(ps, keep_front, other, both);
                assert forall|i: int| 0 <= i < ps.len() implies both(#[trigger] ps[i]) == keep(
                    ps[i],
                ) by {
                    assert(st.owner(id, ps[i].pubkey) == Some(ps[i].control_id));
                    assert(mid.owner(session, pubkey) == Some(cid));
                }
                keyed::lemma_filter_same(ps, both, keep);
                assert(w.participants == ps.filter(keep));
                keyed::lemma_found(u.participants, pubkey);
                assert(ps.len() > 0) by {
                    ps.lemma_filter_len(keep_front);
                }
                assert(w =~= without_those(s, keys, cid, now));
            } else {
                assert forall|i: int| 0 <= i < ps.len() implies keep_front(#[trigger] ps[i])
                    == keep(ps[i]) by {
                    let p = ps[i];
                    assert(st.owner(id, p.pubkey) == Some(p.control_id));
                    if session == id && p.pubkey == pubkey && p.control_id == cid {
                        assert(mid.owner(id, p.pubkey) != Some(cid));
                        assert(front.contains((id, p.pubkey)));
                    }
                }
                keyed::lemma_filter_same(ps, keep_front, keep);
                let after = st.removals_step(keys, cid, now).0;
                assert(after == mid.removal_step(session, pubkey, Some(cid), now).0);
                if mid.registry.session(session) is Some && mid.owner(session, pubkey) == Some(
                    cid,
                ) {
                    let v = mid.registry.session(session)->Some_0;
                    keyed::lemma_found(mid.registry.sessions, session);
                    keyed::put_then_lookup(mid.registry.sessions, v.left(pubkey, now), id);
                } else {
                    assert(mid.agrees(session, pubkey, closing));
                    assert(after == mid);
                }
                assert(u =~= without_those(s, keys, cid, now));
            }
        }
    }
}

proof fn lemma_filter_all(ps: Seq<ParticipantModel>)
    ensures
        ps.filter(|p: ParticipantModel| true) == ps,
    decreases ps.len(),
{
    reveal(Seq::filter);
    if ps.len() > 0 {
        lemma_filter_all(ps.drop_last());
        assert(ps =~= ps.drop_last().push(ps.last()));
    } else {
        assert(ps.filter(|p: ParticipantModel| true) =~= ps);
    }
}

proof fn lemma_keys_split(keys: Seq<handlers::MemberKey>)
    requires
        keys.len() > 0,
    ensures
        forall|k: handlers::MemberKey| #[trigger]
            keys.contains(k) <==> keys.drop_last().contains(k) || k == keys.last(),
{
    let front = keys.drop_last();
    assert forall|k: handlers::MemberKey| #[trigger]
        keys.contains(k) <==> front.contains(k) || k == keys.last() by {
        if keys.contains(k) {
            let i = choose|i: int| 0 <= i < keys.len() && keys[i] == k;
            if i < front.len() {
                assert(front[i] == k);
            }
        }
        if front.contains(k) {
            let i = choose|i: int| 0 <= i < front.len() && front[i] == k;
            assert(keys[i] == k);
        }
        assert(keys[keys.len() - 1] == keys.last());
    }
}

/// Whether stream `to` is told that `p` has left.
pub open spec fn told_of_leaving(
    effects: Seq<EffectModel>,
    to: ControlId,
    session: Seq<u8>,
    p: ParticipantModel,
) -> bool {
    exists|k: int| 0 <= k < effects.len() && tells(#[trigger] effects[k], to, session, EVT_LEFT, p)
}

/// Whether `e` tells the owner of somebody else in a session that `p` has left.
pub open spec fn tells_another(
    st: ServerModel,
    e: EffectModel,
    session: Seq<u8>,
    p: ParticipantModel,
) -> bool {
    exists|q: ParticipantModel|
        {
            &&& st.participant(session, q.pubkey) == Some(q)
            &&& q.pubkey != p.pubkey
            &&& #[trigger] tells(e, q.control_id, session, EVT_LEFT, p)
        }
}

/// Whether `e` tells another participant of one that is to go.
spec fn tells_of_goer(
    st: ServerModel,
    keys: Seq<handlers::MemberKey>,
    cid: ControlId,
    e: EffectModel,
) -> bool {
    exists|session: Seq<u8>, p: ParticipantModel|
        {
            &&& st.participant(session, p.pubkey) == Some(p)
            &&& goes(keys, cid, session, p)
            &&& #[trigger] tells_another(st, e, session, p)
        }
}

proof fn lemma_stream_of(
    st: ServerModel,
    session: Seq<u8>,
    ps: Seq<ParticipantModel>,
    i: int,
) -> (k: int)
    requires
        0 <= i < ps.len(),
        st.owner(session, ps[i].pubkey) is Some,
        st.live(st.owner(session, ps[i].pubkey)->Some_0),
    ensures
        0 <= k < st.streams_of(session, ps, None).len(),
        st.streams_of(session, ps, None)[k] == st.owner(session, ps[i].pubkey)->Some_0,
    decreases ps.len(),
{
    let front = ps.drop_last();
    if i < front.len() {
        lemma_stream_of(st, session, front, i)
    } else {
        st.streams_of(session, front, None).len() as int
    }
}

proof fn lemma_stream_source(
    st: ServerModel,
    session: Seq<u8>,
    ps: Seq<ParticipantModel>,
    k: int,
) -> (i: int)
    requires
        0 <= k < st.streams_of(session, ps, None).len(),
    ensures
        0 <= i < ps.len(),
        st.owner(session, ps[i].pubkey) == Some(st.streams_of(session, ps, None)[k]),
    decreases ps.len(),
{
    let front = ps.drop_last();
    let before = st.streams_of(session, front, None);
    if k < before.len() {
        lemma_stream_source(st, session, front, k)
    } else {
        ps.len() - 1
    }
}

/// Who is told when one participant is taken out.
proof fn lemma_one_left(
    st: ServerModel,
    session: Seq<u8>,
    pubkey: Seq<u8>,
    cid: ControlId,
    now: u64,
    closing: Option<ControlId>,
)
    requires
        st.consistent_but_for(closing),
    ensures
        ({
            let (after, effects) = st.removal_step(session, pubkey, Some(cid), now);
            let p = st.participant(session, pubkey)->Some_0;
            &&& st.owner(session, pubkey) != Some(cid) ==> effects.len() == 0
            &&& st.owner(session, pubkey) == Some(cid) ==> st.participant(session, pubkey) is Some
            &&& st.owner(session, pubkey) == Some(cid) ==> forall|q: Seq<u8>|
                after.participant(session, q) is Some && st.live(
                    (#[trigger] after.participant(session, q))->Some_0.control_id,
                ) ==> told_of_leaving(
                    effects,
                    after.participant(session, q)->Some_0.control_id,
                    session,
                    p,
                )
            &&& forall|k: int|
                0 <= k < effects.len() ==> tells_another(st, #[trigger] effects[k], session, p)
            &&& closing is None && st.owner(session, pubkey) == Some(cid) ==> {
                &&& after.registry.session(session) is Some
                &&& all_told(
                    effects,
                    after.registry.session(session)->Some_0.participants,
                    session,
                    EVT_LEFT,
                    p,
                )
            }
        }),
{
    let (after, effects) = st.removal_step(session, pubkey, Some(cid), now);
    let p = st.participant(session, pubkey)->Some_0;
    assert(st.agrees(session, pubkey, closing));
    consistency::lemma_removal(st, session, pubkey, cid, now, closing);
    if st.owner(session, pubkey) == Some(cid) {
        let s = st.registry.session(session)->Some_0;
        keyed::lemma_found(st.registry.sessions, session);
        keyed::lemma_found(s.participants, pubkey);
        assert(st.sound(s));
        assert(p.pubkey == pubkey);
        let t = s.left(pubkey, now);
        keyed::put_then_lookup(st.registry.sessions, t, session);
        assert(after == st.with_left(s, pubkey, now));
        assert(after.registry.session(session) == Some(t));
        assert(effects == after.event_notices(t, EVT_LEFT, pubkey, p.display_name, None));
        let streams = after.streams_of(t.id, t.participants, None);
        delivery::event_says(t.id, EVT_LEFT, pubkey, p.display_name);
        assert forall|k: int| 0 <= k < effects.len() implies tells(
            #[trigger] effects[k],
            streams[k],
            session,
            EVT_LEFT,
            p,
        ) by {}
        assert forall|q: Seq<u8>|
            after.participant(session, q) is Some && st.live(
                (#[trigger] after.participant(session, q))->Some_0.control_id,
            ) implies told_of_leaving(
            effects,
            after.participant(session, q)->Some_0.control_id,
            session,
            p,
        ) by {
            assert(after.agrees(session, q, closing));
            keyed::lemma_found(t.participants, q);
            let i = keyed::place(t.participants, q);
            let k = lemma_stream_of(after, t.id, t.participants, i);
            assert(tells(effects[k], streams[k], session, EVT_LEFT, p));
        }
        assert forall|k: int| 0 <= k < effects.len() implies tells_another(
            st,
            #[trigger] effects[k],
            session,
            p,
        ) by {
            let i = lemma_stream_source(after, t.id, t.participants, k);
            let q = t.participants[i];
            keyed::without_then_lookup(s.participants, pubkey, q.pubkey);
            keyed::lemma_place(t.participants, i);
            assert(after.participant(session, q.pubkey) == Some(q));
            assert(after.agrees(session, q.pubkey, closing));
            assert(q.pubkey != pubkey);
            assert(st.participant(session, q.pubkey) == Some(q));
            assert(tells(effects[k], q.control_id, session, EVT_LEFT, p));
        }
        if closing is None {
            lemma_notices(after, session, EVT_LEFT, p);
        }
    }
}

/// Who is told when participants are taken out one after the other.
proof fn lemma_all_left(
    st: ServerModel,
    keys: Seq<handlers::MemberKey>,
    cid: ControlId,
    now: u64,
    closing: Option<ControlId>,
)
    requires
        st.consistent_but_for(closing),
    ensures
        ({
            let (after, effects) = st.removals_step(keys, cid, now);
            &&& forall|id: Seq<u8>, pk: Seq<u8>, q: Seq<u8>|
                #![trigger st.participant(id, pk), after.participant(id, q)]
                st.owner(id, pk) == Some(cid) && keys.contains((id, pk)) && after.participant(
                    id,
                    q,
                ) is Some && st.live(after.participant(id, q)->Some_0.control_id)
                    ==> told_of_leaving(
                    effects,
                    after.participant(id, q)->Some_0.control_id,
                    id,
                    st.participant(id, pk)->Some_0,
                )
            &&& forall|k: int|
                0 <= k < effects.len() ==> tells_of_goer(st, keys, cid, #[trigger] effects[k])
        }),
    decreases keys.len(),
{
    if keys.len() > 0 {
        let front = keys.drop_last();
        let (session, pubkey) = keys.last();
        lemma_all_left(st, front, cid, now, closing);
        consistency::lemma_removals(st, front, cid, now, closing);
        let (mid, some) = st.removals_step(front, cid, now);
        let (after, more) = mid.removal_step(session, pubkey, Some(cid), now);
        let effects = st.removals_step(keys, cid, now).1;
        assert(st.removals_step(keys, cid, now).0 == after);
        assert(effects == some + more);
        lemma_one_left(mid, session, pubkey, cid, now, closing);
        consistency::lemma_removal(mid, session, pubkey, cid, now, closing);
        lemma_keys_split(keys);
        assert forall|id: Seq<u8>, pk: Seq<u8>, q: Seq<u8>|
            #![trigger st.participant(id, pk), after.participant(id, q)]
            st.owner(id, pk) == Some(cid) && keys.contains((id, pk)) && after.participant(
                id,
                q,
            ) is Some && st.live(after.participant(id, q)->Some_0.control_id)
                implies told_of_leaving(
            effects,
            after.participant(id, q)->Some_0.control_id,
            id,
            st.participant(id, pk)->Some_0,
        ) by {
            let to = after.participant(id, q)->Some_0.control_id;
            let p = st.participant(id, pk)->Some_0;
            assert(mid.participant(id, q) == after.participant(id, q));
            if front.contains((id, pk)) {
                assert(told_of_leaving(some, to, id, p));
                let k = choose|k: int|
                    0 <= k < some.len() && tells(#[trigger] some[k], to, id, EVT_LEFT, p);
                assert(effects[k] == some[k]);
            } else {
                assert(mid.owner(id, pk) == Some(cid));
                assert(mid.participant(id, pk) == st.participant(id, pk));
                assert(told_of_leaving(more, to, id, p));
                let k = choose|k: int|
                    0 <= k < more.len() && tells(#[trigger] more[k], to, id, EVT_LEFT, p);
                assert(effects[some.len() + k] == more[k]);
            }
        }
        assert forall|k: int| 0 <= k < effects.len() implies tells_of_goer(
            st,
            keys,
            cid,
            #[trigger] effects[k],
        ) by {
            if k < some.len() {
                assert(effects[k] == some[k]);
                let e = some[k];
                let (id, p) = choose|id: Seq<u8>, p: ParticipantModel|
                    {
                        &&& st.participant(id, p.pubkey) == Some(p)
                        &&& goes(front, cid, id, p)
                        &&& #[trigger] tells_another(st, e, id, p)
                    };
                assert(goes(keys, cid, id, p));
            } else {
                let e = more[k - some.len()];
                assert(effects[k] == e);
                let p = mid.participant(session, pubkey)->Some_0;
                assert(mid.agrees(session, pubkey, closing));
                assert(tells_another(mid, e, session, p));
                let q = choose|q: ParticipantModel|
                    {
                        &&& mid.participant(session, q.pubkey) == Some(q)
                        &&& q.pubkey != p.pubkey
                        &&& #[trigger] tells(e, q.control_id, session, EVT_LEFT, p)
                    };
                keyed::lemma_found(mid.registry.sessions, session);
                keyed::lemma_found(mid.registry.session(session)->Some_0.participants, pubkey);
                assert(p.pubkey == pubkey);
                assert(st.participant(session, p.pubkey) == Some(p));
                assert(st.participant(session, q.pubkey) == Some(q));
                assert(tells_another(st, e, session, p));
                assert(keys.contains(keys.last()));
                assert(goes(keys, cid, session, p));
            }
        }
    }
}

/// How many notices there are when participants of one session are taken out:
/// at each departure, as many as there are participants left.
proof fn lemma_left_count(
    st: ServerModel,
    keys: Seq<handlers::MemberKey>,
    cid: ControlId,
    now: u64,
    id: Seq<u8>,
)
    requires
        st.consistent(),
        st.registry.session(id) is Some,
        forall|i: int| 0 <= i < keys.len() ==> (#[trigger] keys[i]).0 == id,
    ensures
        ({
            let (after, effects) = st.removals_step(keys, cid, now);
            let n = st.registry.session(id)->Some_0.participants.len();
            let m = after.registry.session(id)->Some_0.participants.len();
            &&& after.registry.session(id) is Some
            &&& m <= n
            &&& 2 * effects.len() == (n - m) * (n + m - 1)
        }),
    decreases keys.len(),
{
    let n = st.registry.session(id)->Some_0.participants.len() as int;
    if keys.len() == 0 {
        assert((n - n) * (n + n - 1) == 0) by (nonlinear_arith);
    } else {
        let front = keys.drop_last();
        let (session, pubkey) = keys.last();
        assert(keys[keys.len() - 1].0 == id);
        assert forall|i: int| 0 <= i < front.len() implies (#[trigger] front[i]).0 == id by {
            assert(front[i] == keys[i]);
        }
        lemma_left_count(st, front, cid, now, id);
        consistency::lemma_removals(st, front, cid, now, None);
        let (mid, some) = st.removals_step(front, cid, now);
        let (after, more) = mid.removal_step(session, pubkey, Some(cid), now);
        lemma_one_left(mid, session, pubkey, cid, now, None);
        assert(mid.agrees(session, pubkey, None));
        let u = mid.registry.session(id)->Some_0;
        let m = u.participants.len() as int;
        if mid.owner(session, pubkey) == Some(cid) {
            keyed::lemma_found(mid.registry.sessions, id);
            keyed::without_then_lookup(u.participants, pubkey, pubkey);
            keyed::put_then_lookup(mid.registry.sessions, u.left(pubkey, now), id);
            assert((n - (m - 1)) * (n + (m - 1) - 1) == (n - m) * (n + m - 1) + 2 * (m - 1))
                by (nonlinear_arith);
        } else {
            assert(after == mid);
        }
    }
}

/// Which of the participants of a session are to go where all are that the
/// stream owns, in that session or in all.
proof fn lemma_goes(
    st: ServerModel,
    cid: ControlId,
    only: Option<Seq<u8>>,
    closing: Option<ControlId>,
    s: SessionModel,
    now: u64,
)
    requires
        st.consistent_but_for(closing),
        st.registry.session(s.id) == Some(s),
    ensures
        ({
            let t = without_those(s, st.owned_by(cid, only), cid, now);
            let rest = s.participants.filter(|p: ParticipantModel| p.control_id != cid);
            if only is None || only == Some(s.id) {
                &&& t.participants == rest
                &&& t.empty_since == (if rest.len() == 0 && s.participants.len() > 0 {
                    Some(now)
                } else {
                    s.empty_since
                })
            } else {
                t == s
            }
        }),
{
    let keys = st.owned_by(cid, only);
    let ps = s.participants;
    let keep = |p: ParticipantModel| !goes(keys, cid, s.id, p);
    consistency::lemma_owned_by(st, cid, only);
    keyed::lemma_found(st.registry.sessions, s.id);
    assert(s.wf());
    assert forall|i: int| 0 <= i < ps.len() implies st.owner(s.id, (#[trigger] ps[i]).pubkey)
        == Some(ps[i].control_id) by {
        keyed::lemma_place(ps, i);
        assert(st.participant(s.id, ps[i].pubkey) == Some(ps[i]));
        assert(st.agrees(s.id, ps[i].pubkey, closing));
    }
    if only is None || only == Some(s.id) {
        assert forall|i: int| 0 <= i < ps.len() implies keep(#[trigger] ps[i]) == (
        ps[i].control_id != cid) by {
            assert(st.owner(s.id, ps[i].pubkey) == Some(ps[i].control_id));
            assert(keys.contains((s.id, ps[i].pubkey)) <==> st.owner(s.id, ps[i].pubkey) == Some(
                cid,
            ));
        }
        keyed::lemma_filter_same(ps, keep, |p: ParticipantModel| p.control_id != cid);
    } else {
        assert forall|i: int| 0 <= i < ps.len() implies keep(#[trigger] ps[i]) == true by {
            assert(!keys.contains((s.id, ps[i].pubkey)));
        }
        keyed::lemma_filter_same(ps, keep, |p: ParticipantModel| true);
        lemma_filter_all(ps);
        assert(without_those(s, keys, cid, now) =~= s);
    }
}

/// Whether `t` is session `s` without the participants that stream `cid` owns:
/// the others stay, in their order, and where nobody is left who was there, the
/// session counts as empty from `now` on.
pub open spec fn left_behind(s: SessionModel, t: SessionModel, cid: ControlId, now: u64) -> bool {
    &&& t.id == s.id
    &&& t.mode == s.mode
    &&& t.created_at == s.created_at
    &&& t.participants == s.participants.filter(|p: ParticipantModel| p.control_id != cid)
    &&& t.empty_since == (if t.participants.len() == 0 && s.participants.len() > 0 {
        Some(now)
    } else {
        s.empty_since
    })
}

/// What becomes of one session where the participants that a stream owns go.
proof fn lemma_taken_out(
    st: ServerModel,
    cid: ControlId,
    only: Option<Seq<u8>>,
    now: u64,
    closing: Option<ControlId>,
    id: Seq<u8>,
)
    requires
        st.consistent_but_for(closing),
    ensures
        ({
            let after = st.removals_step(st.owned_by(cid, only), cid, now).0;
            let s = st.registry.session(id)->Some_0;
            let t = after.registry.session(id)->Some_0;
            if st.registry.session(id) is Some && (only is None || only == Some(id)) {
                after.registry.session(id) is Some && left_behind(s, t, cid, now)
            } else {
                after.registry.session(id) == st.registry.session(id)
            }
        }),
{
    let keys = st.owned_by(cid, only);
    lemma_sessions_after(st, keys, cid, now, closing, id);
    if st.registry.session(id) is Some {
        keyed::lemma_found(st.registry.sessions, id);
        lemma_goes(st, cid, only, closing, st.registry.session(id)->Some_0, now);
    }
}

/// A leave request takes out of its session the participants that its stream
/// owns, and no others. Every other session stays as it was.
pub proof fn leave_takes_out_its_own(
    st: ServerModel,
    cid: ControlId,
    remote: Seq<u8>,
    body: Seq<u8>,
    clock: Clock,
    id: Seq<u8>,
)
    requires
        st.consistent(),
        tlv::parse_records(body) is Ok,
        values(body).contains_key(TAG_SESSION_ID),
        values(body)[TAG_SESSION_ID].len() == 16,
    ensures
        ({
            let sid = values(body)[TAG_SESSION_ID];
            let event = ControlEventModel::Frame { cmd: CMD_CALL_LEAVE, body };
            let after = st.control_step(cid, remote, event, clock, id).0;
            &&& same_streams(st, after)
            &&& forall|other: Seq<u8>|
                other != sid ==> #[trigger] after.registry.session(other) == st.registry.session(
                    other,
                )
            &&& after.registry.session(sid) is Some <==> st.registry.session(sid) is Some
            &&& st.registry.session(sid) is Some ==> left_behind(
                st.registry.session(sid)->Some_0,
                after.registry.session(sid)->Some_0,
                cid,
                clock.monotonic,
            )
            &&& forall|other: Seq<u8>, pk: Seq<u8>| #[trigger]
                after.owner(other, pk) == (if other == sid && st.owner(other, pk) == Some(cid) {
                    None
                } else {
                    st.owner(other, pk)
                })
        }),
{
    let sid = values(body)[TAG_SESSION_ID];
    let event = ControlEventModel::Frame { cmd: CMD_CALL_LEAVE, body };
    let now = clock.monotonic;
    let after = st.control_step(cid, remote, event, clock, id).0;
    let keys = st.owned_by(cid, Some(sid));
    assert(after == st.removals_step(keys, cid, now).0);
    consistency::lemma_owned_by(st, cid, Some(sid));
    consistency::lemma_removals(st, keys, cid, now, None);
    lemma_taken_out(st, cid, Some(sid), now, None, sid);
    assert forall|other: Seq<u8>| other != sid implies #[trigger] after.registry.session(other)
        == st.registry.session(other) by {
        lemma_taken_out(st, cid, Some(sid), now, None, other);
    }
    assert forall|other: Seq<u8>, pk: Seq<u8>| #[trigger] after.owner(other, pk) == (if other
        == sid && st.owner(other, pk) == Some(cid) {
        None
    } else {
        st.owner(other, pk)
    }) by {
        assert(keys.contains((other, pk)) <==> st.owner(other, pk) == Some(cid) && Some(sid)
            == Some(other));
    }
}

/// When a leave request takes participants out, everyone who is left is told of
/// everyone who has gone. Nothing is sent but such notices, to participants of
/// that session, and at each departure there are as many as there are
/// participants left.
pub proof fn leave_is_told(
    st: ServerModel,
    cid: ControlId,
    remote: Seq<u8>,
    body: Seq<u8>,
    clock: Clock,
    id: Seq<u8>,
)
    requires
        st.consistent(),
        tlv::parse_records(body) is Ok,
        values(body).contains_key(TAG_SESSION_ID),
        values(body)[TAG_SESSION_ID].len() == 16,
    ensures
        ({
            let sid = values(body)[TAG_SESSION_ID];
            let event = ControlEventModel::Frame { cmd: CMD_CALL_LEAVE, body };
            let (after, effects) = st.control_step(cid, remote, event, clock, id);
            let n = st.registry.session(sid)->Some_0.participants.len();
            let m = after.registry.session(sid)->Some_0.participants.len();
            &&& forall|pk: Seq<u8>, q: Seq<u8>|
                #![trigger st.participant(sid, pk), after.participant(sid, q)]
                st.participant(sid, pk) is Some && st.participant(sid, pk)->Some_0.control_id
                    == cid && after.participant(sid, q) is Some ==> told_of_leaving(
                    effects,
                    after.participant(sid, q)->Some_0.control_id,
                    sid,
                    st.participant(sid, pk)->Some_0,
                )
            &&& forall|k: int|
                0 <= k < effects.len() ==> tells_of_one_of(st, cid, sid, #[trigger] effects[k])
            &&& st.registry.session(sid) is None ==> effects.len() == 0
            &&& st.registry.session(sid) is Some ==> 2 * effects.len() == (n - m) * (n + m - 1)
        }),
{
    let sid = values(body)[TAG_SESSION_ID];
    let event = ControlEventModel::Frame { cmd: CMD_CALL_LEAVE, body };
    let now = clock.monotonic;
    let (after, effects) = st.control_step(cid, remote, event, clock, id);
    let keys = st.owned_by(cid, Some(sid));
    assert((after, effects) == st.removals_step(keys, cid, now));
    consistency::lemma_owned_by(st, cid, Some(sid));
    lemma_told(st, cid, Some(sid), now, None);
    assert forall|i: int| 0 <= i < keys.len() implies (#[trigger] keys[i]).0 == sid
        && st.owner(sid, keys[i].1) == Some(cid) by {
        assert(keys.contains((keys[i].0, keys[i].1)));
    }
    if st.registry.session(sid) is Some {
        lemma_left_count(st, keys, cid, now, sid);
    } else if keys.len() > 0 {
        assert(st.owner(sid, keys[0].1) == Some(cid));
        assert(st.agrees(sid, keys[0].1, None));
    }
    assert forall|k: int| 0 <= k < effects.len() implies tells_of_one_of(
        st,
        cid,
        sid,
        #[trigger] effects[k],
    ) by {
        let e = effects[k];
        assert(tells_of_goer(st, keys, cid, e));
        let (other, p) = choose|other: Seq<u8>, p: ParticipantModel|
            {
                &&& st.participant(other, p.pubkey) == Some(p)
                &&& goes(keys, cid, other, p)
                &&& #[trigger] tells_another(st, e, other, p)
            };
        assert(keys.contains((other, p.pubkey)));
        assert(other == sid);
    }
}

/// Whether `e` tells another participant of a session that one whom stream
/// `cid` owned has left it.
pub open spec fn tells_of_one_of(
    st: ServerModel,
    cid: ControlId,
    session: Seq<u8>,
    e: EffectModel,
) -> bool {
    exists|p: ParticipantModel|
        {
            &&& st.participant(session, p.pubkey) == Some(p)
            &&& p.control_id == cid
            &&& #[trigger] tells_another(st, e, session, p)
        }
}

/// Whether `e` tells so in any session.
pub open spec fn tells_of_some(st: ServerModel, cid: ControlId, e: EffectModel) -> bool {
    exists|session: Seq<u8>| #[trigger] tells_of_one_of(st, cid, session, e)
}

/// Who is told where the participants that a stream owns go.
proof fn lemma_told(
    st: ServerModel,
    cid: ControlId,
    only: Option<Seq<u8>>,
    now: u64,
    closing: Option<ControlId>,
)
    requires
        st.consistent_but_for(closing),
        closing is None || closing == Some(cid),
        closing is Some ==> only is None,
    ensures
        ({
            let keys = st.owned_by(cid, only);
            let (after, effects) = st.removals_step(keys, cid, now);
            &&& forall|id: Seq<u8>, pk: Seq<u8>, q: Seq<u8>|
                #![trigger st.participant(id, pk), after.participant(id, q)]
                (only is None || only == Some(id)) && st.participant(id, pk) is Some
                    && st.participant(id, pk)->Some_0.control_id == cid && after.participant(
                    id,
                    q,
                ) is Some ==> told_of_leaving(
                    effects,
                    after.participant(id, q)->Some_0.control_id,
                    id,
                    st.participant(id, pk)->Some_0,
                )
            &&& forall|k: int|
                0 <= k < effects.len() ==> tells_of_goer(st, keys, cid, #[trigger] effects[k])
        }),
{
    let keys = st.owned_by(cid, only);
    let (after, effects) = st.removals_step(keys, cid, now);
    consistency::lemma_owned_by(st, cid, only);
    consistency::lemma_removals(st, keys, cid, now, closing);
    lemma_all_left(st, keys, cid, now, closing);
    assert forall|id: Seq<u8>, pk: Seq<u8>, q: Seq<u8>|
        #![trigger st.participant(id, pk), after.participant(id, q)]
        (only is None || only == Some(id)) && st.participant(id, pk) is Some && st.participant(
            id,
            pk,
        )->Some_0.control_id == cid && after.participant(id, q) is Some implies told_of_leaving(
        effects,
        after.participant(id, q)->Some_0.control_id,
        id,
        st.participant(id, pk)->Some_0,
    ) by {
        assert(st.agrees(id, pk, closing));
        assert(keys.contains((id, pk)));
        assert(after.agrees(id, q, closing));
        if closing is Some {
            let owner = after.participant(id, q)->Some_0.control_id;
            assert(st.owner(id, q) == Some(owner));
            assert(keys.contains((id, q)) <==> st.owner(id, q) == Some(cid));
        }
    }
}

/// The end of a stream takes the participants that it owned out of every
/// session, and no others, and the stream is no longer live. No session goes.
pub proof fn end_takes_out_its_own(
    st: ServerModel,
    cid: ControlId,
    remote: Seq<u8>,
    clock: Clock,
    id: Seq<u8>,
)
    requires
        st.consistent(),
    ensures
        ({
            let event = ControlEventModel::Ended;
            let after = st.control_step(cid, remote, event, clock, id).0;
            &&& after.controls == st.controls.remove(cid)
            &&& after.next_id == st.next_id
            &&& after.mediator_pub == st.mediator_pub
            &&& after.registry.mcu_enabled == st.registry.mcu_enabled
            &&& forall|sid: Seq<u8>| #[trigger]
                after.registry.session(sid) is Some <==> st.registry.session(sid) is Some
            &&& forall|sid: Seq<u8>|
                st.registry.session(sid) is Some ==> left_behind(
                    st.registry.session(sid)->Some_0,
                    (#[trigger] after.registry.session(sid))->Some_0,
                    cid,
                    clock.monotonic,
                )
            &&& forall|sid: Seq<u8>, pk: Seq<u8>| #[trigger]
                after.owner(sid, pk) == (if st.owner(sid, pk) == Some(cid) {
                    None
                } else {
                    st.owner(sid, pk)
                })
        }),
{
    let now = clock.monotonic;
    let mid = st.without_control(cid);
    let after = st.control_step(cid, remote, ControlEventModel::Ended, clock, id).0;
    let keys = mid.owned_by(cid, None);
    assert(after == mid.removals_step(keys, cid, now).0);
    consistency::lemma_closed(st, cid);
    consistency::lemma_owned_by(mid, cid, None);
    consistency::lemma_removals(mid, keys, cid, now, Some(cid));
    assert forall|sid: Seq<u8>| #[trigger] after.registry.session(sid) is Some
        <==> st.registry.session(sid) is Some by {
        lemma_taken_out(mid, cid, None, now, Some(cid), sid);
    }
    assert forall|sid: Seq<u8>| st.registry.session(sid) is Some implies left_behind(
        st.registry.session(sid)->Some_0,
        (#[trigger] after.registry.session(sid))->Some_0,
        cid,
        now,
    ) by {
        lemma_taken_out(mid, cid, None, now, Some(cid), sid);
    }
    assert forall|sid: Seq<u8>, pk: Seq<u8>| #[trigger] after.owner(sid, pk) == (if st.owner(
        sid,
        pk,
    ) == Some(cid) {
        None
    } else {
        st.owner(sid, pk)
    }) by {
        assert(mid.owner(sid, pk) == st.owner(sid, pk));
        assert(keys.contains((sid, pk)) <==> mid.owner(sid, pk) == Some(cid));
    }
}

/// When the end of a stream takes participants out, everyone who is left in
/// their session is told of them, and nothing else is sent.
pub proof fn end_is_told(
    st: ServerModel,
    cid: ControlId,
    remote: Seq<u8>,
    clock: Clock,
    id: Seq<u8>,
)
    requires
        st.consistent(),
    ensures
        ({
            let event = ControlEventModel::Ended;
            let (after, effects) = st.control_step(cid, remote, event, clock, id);
            &&& forall|sid: Seq<u8>, pk: Seq<u8>, q: Seq<u8>|
                #![trigger st.participant(sid, pk), after.participant(sid, q)]
                st.participant(sid, pk) is Some && st.participant(sid, pk)->Some_0.control_id
                    == cid && after.participant(sid, q) is Some ==> told_of_leaving(
                    effects,
                    after.participant(sid, q)->Some_0.control_id,
                    sid,
                    st.participant(sid, pk)->Some_0,
                )
            &&& forall|k: int|
                0 <= k < effects.len() ==> tells_of_some(st, cid, #[trigger] effects[k])
        }),
{
    let now = clock.monotonic;
    let mid = st.without_control(cid);
    let (after, effects) = st.control_step(cid, remote, ControlEventModel::Ended, clock, id);
    let keys = mid.owned_by(cid, None);
    assert((after, effects) == mid.removals_step(keys, cid, now));
    consistency::lemma_closed(st, cid);
    lemma_told(mid, cid, None, now, Some(cid));
    assert forall|sid: Seq<u8>, pk: Seq<u8>, q: Seq<u8>|
        #![trigger st.participant(sid, pk), after.participant(sid, q)]
        st.participant(sid, pk) is Some && st.participant(sid, pk)->Some_0.control_id == cid
            && after.participant(sid, q) is Some implies told_of_leaving(
        effects,
        after.participant(sid, q)->Some_0.control_id,
        sid,
        st.participant(sid, pk)->Some_0,
    ) by {
        assert(mid.participant(sid, pk) == st.participant(sid, pk));
    }
    assert forall|k: int| 0 <= k < effects.len() implies tells_of_some(
        st,
        cid,
        #[trigger] effects[k],
    ) by {
        let e = effects[k];
        assert(tells_of_goer(mid, keys, cid, e));
        let (sid, p) = choose|sid: Seq<u8>, p: ParticipantModel|
            {
                &&& mid.participant(sid, p.pubkey) == Some(p)
                &&& goes(keys, cid, sid, p)
                &&& #[trigger] tells_another(mid, e, sid, p)
            };
        let q = choose|q: ParticipantModel|
            {
                &&& mid.participant(sid, q.pubkey) == Some(q)
                &&& q.pubkey != p.pubkey
                &&& #[trigger] tells(e, q.control_id, sid, EVT_LEFT, p)
            };
        assert(st.participant(sid, p.pubkey) == Some(p));
        assert(st.participant(sid, q.pubkey) == Some(q));
        assert(tells_another(st, e, sid, p));
        assert(tells_of_one_of(st, cid, sid, e));
    }
}

/// Those of the participants that stream `cid` does not own.
pub open spec fn others_of(ps: Seq<ParticipantModel>, cid: ControlId) -> Seq<ParticipantModel> {
    ps.filter(|p: ParticipantModel| p.control_id != cid)
}

/// How many notices are due when stream `cid` ends: for each participant that it
/// owned, one to each participant of the session that it did not own.
pub open spec fn notices_due(
    st: ServerModel,
    cid: ControlId,
    keys: Seq<handlers::MemberKey>,
) -> nat
    decreases keys.len(),
{
    if keys.len() == 0 {
        0
    } else {
        notices_due(st, cid, keys.drop_last()) + others_of(
            st.registry.session(keys.last().0)->Some_0.participants,
            cid,
        ).len()
    }
}

/// The streams that are told, where all are live but the one that ends.
proof fn lemma_streams_count(
    st: ServerModel,
    session: Seq<u8>,
    ps: Seq<ParticipantModel>,
    cid: ControlId,
)
    requires
        forall|i: int|
            0 <= i < ps.len() ==> st.owner(session, (#[trigger] ps[i]).pubkey) == Some(
                ps[i].control_id,
            ) && (st.live(ps[i].control_id) <==> ps[i].control_id != cid),
    ensures
        st.streams_of(session, ps, None).len() == others_of(ps, cid).len(),
    decreases ps.len(),
{
    reveal(Seq::filter);
    if ps.len() > 0 {
        let front = ps.drop_last();
        assert forall|i: int| 0 <= i < front.len() implies st.owner(
            session,
            (#[trigger] front[i]).pubkey,
        ) == Some(front[i].control_id) && (st.live(front[i].control_id) <==> front[i].control_id
            != cid) by {
            assert(front[i] == ps[i]);
        }
        lemma_streams_count(st, session, front, cid);
        assert(ps[ps.len() - 1] == ps.last());
    }
}

/// Those who stay are the same before and after others go.
proof fn lemma_others_stay(
    ps: Seq<ParticipantModel>,
    cid: ControlId,
    keep: spec_fn(ParticipantModel) -> bool,
)
    requires
        forall|i: int|
            0 <= i < ps.len() && (#[trigger] ps[i]).control_id != cid ==> keep(ps[i]),
    ensures
        others_of(ps.filter(keep), cid) == others_of(ps, cid),
{
    let stays = |p: ParticipantModel| p.control_id != cid;
    let both = |p: ParticipantModel| keep(p) && stays(p);
    keyed::lemma_filter_twice(ps, keep, stays, both);
    keyed::lemma_filter_same(ps, both, stays);
}

/// How many are told when one participant of an ended stream is taken out.
proof fn lemma_one_end_count(
    st: ServerModel,
    session: Seq<u8>,
    pubkey: Seq<u8>,
    cid: ControlId,
    now: u64,
)
    requires
        st.consistent_but_for(Some(cid)),
        !st.live(cid),
        st.owner(session, pubkey) == Some(cid),
    ensures
        st.removal_step(session, pubkey, Some(cid), now).1.len() == others_of(
            st.registry.session(session)->Some_0.participants,
            cid,
        ).len(),
{
    let (after, effects) = st.removal_step(session, pubkey, Some(cid), now);
    assert(st.agrees(session, pubkey, Some(cid)));
    consistency::lemma_removal(st, session, pubkey, cid, now, Some(cid));
    let s = st.registry.session(session)->Some_0;
    keyed::lemma_found(st.registry.sessions, session);
    assert(s.wf());
    keyed::lemma_found(s.participants, pubkey);
    let t = s.left(pubkey, now);
    let name = keyed::lookup(s.participants, pubkey)->Some_0.display_name;
    let other = |p: ParticipantModel| p.pubkey != pubkey;
    keyed::lemma_without_is_filter(s.participants, pubkey, other);
    assert forall|i: int|
        0 <= i < s.participants.len() && (#[trigger] s.participants[i]).control_id
            != cid implies other(s.participants[i]) by {
        keyed::lemma_place(s.participants, i);
    }
    lemma_others_stay(s.participants, cid, other);
    keyed::put_then_lookup(st.registry.sessions, t, session);
    assert(after.registry.session(session) == Some(t));
    assert forall|i: int| 0 <= i < t.participants.len() implies after.owner(
        session,
        (#[trigger] t.participants[i]).pubkey,
    ) == Some(t.participants[i].control_id) && (after.live(t.participants[i].control_id)
        <==> t.participants[i].control_id != cid) by {
        let q = t.participants[i];
        keyed::without_then_lookup(s.participants, pubkey, q.pubkey);
        keyed::lemma_place(t.participants, i);
        assert(after.participant(session, q.pubkey) == Some(q));
        assert(after.agrees(session, q.pubkey, Some(cid)));
    }
    lemma_streams_count(after, session, t.participants, cid);
    assert(effects == after.event_notices(t, EVT_LEFT, pubkey, name, None));
}

proof fn lemma_end_count(
    st: ServerModel,
    keys: Seq<handlers::MemberKey>,
    cid: ControlId,
    now: u64,
)
    requires
        st.consistent_but_for(Some(cid)),
        !st.live(cid),
        forall|i: int| 0 <= i < keys.len() ==> st.owner((#[trigger] keys[i]).0, keys[i].1) == Some(
            cid,
        ),
        forall|i: int, j: int| 0 <= i < j < keys.len() ==> #[trigger] keys[i] != #[trigger] keys[j],
    ensures
        st.removals_step(keys, cid, now).1.len() == notices_due(st, cid, keys),
    decreases keys.len(),
{
    if keys.len() > 0 {
        let front = keys.drop_last();
        let (session, pubkey) = keys.last();
        let at = keys.len() - 1;
        assert(keys[at] == (session, pubkey));
        assert forall|i: int| 0 <= i < front.len() implies st.owner(
            (#[trigger] front[i]).0,
            front[i].1,
        ) == Some(cid) by {
            assert(front[i] == keys[i]);
        }
        assert forall|i: int, j: int| 0 <= i < j < front.len() implies #[trigger] front[i]
            != #[trigger] front[j] by {
            assert(front[i] == keys[i] && front[j] == keys[j]);
        }
        lemma_end_count(st, front, cid, now);
        consistency::lemma_removals(st, front, cid, now, Some(cid));
        let mid = st.removals_step(front, cid, now).0;
        assert(!front.contains((session, pubkey))) by {
            if front.contains((session, pubkey)) {
                let i = choose|i: int| 0 <= i < front.len() && front[i] == (session, pubkey);
                assert(keys[i] == keys[at]);
            }
        }
        assert(mid.owner(session, pubkey) == Some(cid));
        lemma_one_end_count(mid, session, pubkey, cid, now);
        assert(st.agrees(session, pubkey, Some(cid)));
        let s = st.registry.session(session)->Some_0;
        keyed::lemma_found(st.registry.sessions, session);
        lemma_sessions_after(st, front, cid, now, Some(cid), session);
        lemma_others_stay(
            s.participants,
            cid,
            |p: ParticipantModel| !goes(front, cid, s.id, p),
        );
    }
}

/// When a stream ends, there are as many notices as there are pairs of one who
/// goes and one who is left in the same session.
pub proof fn end_is_told_once(
    st: ServerModel,
    cid: ControlId,
    remote: Seq<u8>,
    clock: Clock,
    id: Seq<u8>,
)
    requires
        st.consistent(),
    ensures
        st.control_step(cid, remote, ControlEventModel::Ended, clock, id).1.len() == notices_due(
            st,
            cid,
            st.owned_by(cid, None),
        ),
{
    let mid = st.without_control(cid);
    let keys = mid.owned_by(cid, None);
    consistency::lemma_closed(st, cid);
    meaning::owned_participants_are_listed(mid, cid, None);
    lemma_end_count(mid, keys, cid, clock.monotonic);
    lemma_due_is_same(st, mid, cid, keys);
}

proof fn lemma_due_is_same(
    st: ServerModel,
    mid: ServerModel,
    cid: ControlId,
    keys: Seq<handlers::MemberKey>,
)
    requires
        mid.registry == st.registry,
    ensures
        notices_due(st, cid, keys) == notices_due(mid, cid, keys),
    decreases keys.len(),
{
    if keys.len() > 0 {
        lemma_due_is_same(st, mid, cid, keys.drop_last());
    }
}

/// Where a stream owns one participant of a session, and that one leaves,
/// everybody who is left is told once, in their order, and nobody else.
pub proof fn one_departure_is_told(
    st: ServerModel,
    cid: ControlId,
    remote: Seq<u8>,
    body: Seq<u8>,
    clock: Clock,
    id: Seq<u8>,
    p: ParticipantModel,
)
    requires
        st.consistent(),
        tlv::parse_records(body) is Ok,
        values(body).contains_key(TAG_SESSION_ID),
        values(body)[TAG_SESSION_ID].len() == 16,
        st.participant(values(body)[TAG_SESSION_ID], p.pubkey) == Some(p),
        p.control_id == cid,
        forall|pk: Seq<u8>|
            pk != p.pubkey ==> #[trigger] st.owner(values(body)[TAG_SESSION_ID], pk) != Some(cid),
    ensures
        ({
            let sid = values(body)[TAG_SESSION_ID];
            let event = ControlEventModel::Frame { cmd: CMD_CALL_LEAVE, body };
            let (after, effects) = st.control_step(cid, remote, event, clock, id);
            &&& after.registry.session(sid) is Some
            &&& all_told(
                effects,
                after.registry.session(sid)->Some_0.participants,
                sid,
                EVT_LEFT,
                p,
            )
        }),
{
    let sid = values(body)[TAG_SESSION_ID];
    let now = clock.monotonic;
    let keys = st.owned_by(cid, Some(sid));
    assert(st.agrees(sid, p.pubkey, None));
    lemma_single_key(st, cid, Some(sid), sid, p.pubkey);
    reveal_with_fuel(ServerModel::removals_step, 2);
    assert(keys.drop_last() =~= Seq::<handlers::MemberKey>::empty());
    let (after, effects) = st.removal_step(sid, p.pubkey, Some(cid), now);
    assert(st.removals_step(keys, cid, now).1 =~= effects);
    lemma_one_left(st, sid, p.pubkey, cid, now, None);
}

/// Where a stream owned one participant, and ends, everybody who is left in the
/// session is told once, in their order, and nobody else.
pub proof fn one_end_is_told(
    st: ServerModel,
    cid: ControlId,
    remote: Seq<u8>,
    clock: Clock,
    id: Seq<u8>,
    session: Seq<u8>,
    p: ParticipantModel,
)
    requires
        st.consistent(),
        st.participant(session, p.pubkey) == Some(p),
        p.control_id == cid,
        forall|sid: Seq<u8>, pk: Seq<u8>| #[trigger]
            st.owner(sid, pk) == Some(cid) ==> sid == session && pk == p.pubkey,
    ensures
        ({
            let event = ControlEventModel::Ended;
            let (after, effects) = st.control_step(cid, remote, event, clock, id);
            &&& after.registry.session(session) is Some
            &&& all_told(
                effects,
                after.registry.session(session)->Some_0.participants,
                session,
                EVT_LEFT,
                p,
            )
        }),
{
    let now = clock.monotonic;
    let mid = st.without_control(cid);
    let keys = mid.owned_by(cid, None);
    assert(st.agrees(session, p.pubkey, None));
    consistency::lemma_closed(st, cid);
    assert forall|sid: Seq<u8>, pk: Seq<u8>| #[trigger] mid.owner(sid, pk) == Some(cid)
        implies sid == session && pk == p.pubkey by {
        assert(st.owner(sid, pk) == Some(cid));
    }
    lemma_single_key(mid, cid, None, session, p.pubkey);
    reveal_with_fuel(ServerModel::removals_step, 2);
    assert(keys.drop_last() =~= Seq::<handlers::MemberKey>::empty());
    let (after, effects) = mid.removal_step(session, p.pubkey, Some(cid), now);
    assert(mid.removals_step(keys, cid, now).1 =~= effects);
    assert(mid.removals_step(keys, cid, now).0 == after);
    consistency::ended_stream_owns_nothing(st, cid, remote, clock, id);
    let s = mid.registry.session(session)->Some_0;
    let t = s.left(p.pubkey, now);
    keyed::lemma_found(mid.registry.sessions, session);
    keyed::put_then_lookup(mid.registry.sessions, t, session);
    assert(after.registry.session(session) == Some(t));
    lemma_notices(after, session, EVT_LEFT, p);
}

/// The list of what a stream owns, where that is one participant.
proof fn lemma_single_key(
    st: ServerModel,
    cid: ControlId,
    only: Option<Seq<u8>>,
    session: Seq<u8>,
    pubkey: Seq<u8>,
)
    requires
        st.wf(),
        only is None || only == Some(session),
        st.owner(session, pubkey) == Some(cid),
        forall|id: Seq<u8>, pk: Seq<u8>| #[trigger]
            st.owner(id, pk) == Some(cid) && (only is None || only == Some(id)) ==> id == session
                && pk == pubkey,
    ensures
        st.owned_by(cid, only) == seq![(session, pubkey)],
{
    let keys = st.owned_by(cid, only);
    let wanted = |m: MemberModel|
        m.owner == cid && (only is None || only == Some(m.session));
    let f = st.members.filter(wanted);
    consistency::lemma_owned_by(st, cid, only);
    keyed::filter_then_lookup(st.members, wanted, (session, pubkey));
    assert forall|i: int| 0 <= i < keys.len() implies #[trigger] keys[i] == (session, pubkey) by {
        assert(keys.contains((keys[i].0, keys[i].1)));
        assert(st.owner(keys[i].0, keys[i].1) == Some(cid));
    }
    assert(keys.contains((session, pubkey)));
    if keys.len() > 1 {
        assert(f[0].key() == keys[0] && f[1].key() == keys[1]);
    }
    assert(keys =~= seq![(session, pubkey)]);
}

/// A stream that is given up takes with it the participants that it owned, and no
/// others, also where it is still counted among the live ones. Everyone else who
/// is left in their session is told, and nothing else is sent.
pub proof fn giving_up_a_stream(st: ServerModel, cid: ControlId, now: u64)
    requires
        st.consistent(),
    ensures
        ({
            let (after, effects) = st.disconnect_step(cid, now);
            &&& same_streams(st, after)
            &&& forall|sid: Seq<u8>| #[trigger]
                after.registry.session(sid) is Some <==> st.registry.session(sid) is Some
            &&& forall|sid: Seq<u8>|
                st.registry.session(sid) is Some ==> left_behind(
                    st.registry.session(sid)->Some_0,
                    (#[trigger] after.registry.session(sid))->Some_0,
                    cid,
                    now,
                )
            &&& forall|sid: Seq<u8>, pk: Seq<u8>| #[trigger]
                after.owner(sid, pk) == (if st.owner(sid, pk) == Some(cid) {
                    None
                } else {
                    st.owner(sid, pk)
                })
            &&& forall|sid: Seq<u8>, pk: Seq<u8>, q: Seq<u8>|
                #![trigger st.participant(sid, pk), after.participant(sid, q)]
                st.participant(sid, pk) is Some && st.participant(sid, pk)->Some_0.control_id
                    == cid && after.participant(sid, q) is Some ==> told_of_leaving(
                    effects,
                    after.participant(sid, q)->Some_0.control_id,
                    sid,
                    st.participant(sid, pk)->Some_0,
                )
            &&& forall|k: int|
                0 <= k < effects.len() ==> tells_of_some(st, cid, #[trigger] effects[k])
        }),
{
    let (after, effects) = st.disconnect_step(cid, now);
    let keys = st.owned_by(cid, None);
    consistency::lemma_owned_by(st, cid, None);
    consistency::lemma_removals(st, keys, cid, now, None);
    lemma_told(st, cid, None, now, None);
    assert forall|sid: Seq<u8>| st.registry.session(sid) is Some implies left_behind(
        st.registry.session(sid)->Some_0,
        (#[trigger] after.registry.session(sid))->Some_0,
        cid,
        now,
    ) by {
        lemma_taken_out(st, cid, None, now, None, sid);
    }
    assert forall|sid: Seq<u8>, pk: Seq<u8>| #[trigger] after.owner(sid, pk) == (if st.owner(
        sid,
        pk,
    ) == Some(cid) {
        None
    } else {
        st.owner(sid, pk)
    }) by {
        assert(keys.contains((sid, pk)) <==> st.owner(sid, pk) == Some(cid));
    }
    assert forall|k: int| 0 <= k < effects.len() implies tells_of_some(
        st,
        cid,
        #[trigger] effects[k],
    ) by {
        let e = effects[k];
        assert(tells_of_goer(st, keys, cid, e));
        let (sid, p) = choose|sid: Seq<u8>, p: ParticipantModel|
            {
                &&& st.participant(sid, p.pubkey) == Some(p)
                &&& goes(keys, cid, sid, p)
                &&& #[trigger] tells_another(st, e, sid, p)
            };
        assert(tells_of_one_of(st, cid, sid, e));
    }
}

/// The time of day makes a difference to a request exactly where the request
/// keeps a timestamp.
pub proof fn time_matters_where_it_is_kept(
    st: ServerModel,
    cid: ControlId,
    remote: Seq<u8>,
    cmd: u8,
    body: Seq<u8>,
    clock: Clock,
    unix: i64,
    id: Seq<u8>,
)
    requires
        st.wf(),
        unix != clock.unix,
    ensures
        ({
            let event = ControlEventModel::Frame { cmd, body };
            let later = Clock { unix, ..clock };
            st.keeps_timestamp(remote, cmd, body) <==> st.control_step(
                cid,
                remote,
                event,
                clock,
                id,
            ).0 != st.control_step(cid, remote, event, later, id).0
        }),
{
    let event = ControlEventModel::Frame { cmd, body };
    let later = Clock { unix, ..clock };
    let one = st.control_step(cid, remote, event, clock, id).0;
    let two = st.control_step(cid, remote, event, later, id).0;
    if !st.keeps_timestamp(remote, cmd, body) {
        laws::only_timestamps_tell_the_time(st, cid, remote, event, clock, unix, id);
    } else if cmd == CMD_CALL_CREATE {
        let mode = handlers::create_request(body)->Ok_0;
        keyed::put_then_lookup(st.registry.sessions, SessionModel::fresh(id, mode, clock), id);
        keyed::put_then_lookup(st.registry.sessions, SessionModel::fresh(id, mode, later), id);
        assert(one.registry.session(id)->Some_0.created_at == clock.unix);
        assert(two.registry.session(id)->Some_0.created_at == unix);
    } else {
        let req = handlers::join_request(body, remote)->Ok_0;
        let s = st.registry.session(req.session_id)->Some_0;
        keyed::lemma_found(st.registry.sessions, req.session_id);
        assert(s.wf());
        let p = req.participant(cid, remote, clock);
        let q = req.participant(cid, remote, later);
        keyed::put_then_lookup(st.registry.sessions, s.joined(p), s.id);
        keyed::put_then_lookup(st.registry.sessions, s.joined(q), s.id);
        keyed::put_then_lookup(s.participants, p, p.pubkey);
        keyed::put_then_lookup(s.participants, q, q.pubkey);
        assert(one.participant(s.id, req.identity)->Some_0.joined_at == clock.unix);
        assert(two.participant(s.id, req.identity)->Some_0.joined_at == unix);
    }
}

// ── Sessions across events ───────────────────────────────────────────────

/// Whatever comes in on a stream, no session goes: each one is still found, with
/// the id, the mode and the time of creation that it had. The only session that a
/// request can replace is one with the id that a new session is made under, and
/// the only one that can be new is that session.
pub proof fn no_event_drops_a_session(
    st: ServerModel,
    cid: ControlId,
    remote: Seq<u8>,
    event: ControlEventModel,
    clock: Clock,
    id: Seq<u8>,
    sid: Seq<u8>,
)
    requires
        st.consistent(),
        remote.len() == PUBKEY_LEN,
        event is Frame ==> st.live(cid) && st.controls[cid] == remote,
        event is Frame && event->cmd == CMD_CALL_CREATE ==> sid != id,
    ensures
        ({
            let after = st.control_step(cid, remote, event, clock, id).0;
            let s = st.registry.session(sid)->Some_0;
            let t = after.registry.session(sid)->Some_0;
            &&& after.registry.session(sid) is Some <==> st.registry.session(sid) is Some
            &&& st.registry.session(sid) is Some ==> t.id == s.id && t.mode == s.mode
                && t.created_at == s.created_at
        }),
{
    match event {
        ControlEventModel::Opened => {},
        ControlEventModel::Ended => {
            end_takes_out_its_own(st, cid, remote, clock, id);
        },
        ControlEventModel::Frame { cmd, body } => {
            if st.request_step(cid, remote, cmd, body, clock, id) is Ok {
                if cmd == CMD_CALL_CREATE {
                    let mode = handlers::create_request(body)->Ok_0;
                    let fresh = SessionModel::fresh(id, mode, clock);
                    keyed::put_then_lookup(st.registry.sessions, fresh, sid);
                } else if cmd == CMD_CALL_JOIN {
                    let req = handlers::join_request(body, remote)->Ok_0;
                    if st.registry.refusal(req.session_id, req.identity) is None {
                        consistency::lemma_join_request_ok(st, cid, remote, body, clock);
                        let s = st.registry.session(req.session_id)->Some_0;
                        keyed::lemma_found(st.registry.sessions, req.session_id);
                        let p = req.participant(cid, remote, clock);
                        consistency::lemma_joined(st, s, p);
                    }
                } else if cmd == CMD_CALL_LEAVE {
                    let from = handlers::leave_request(body)->Ok_0;
                    lemma_taken_out(st, cid, Some(from), clock.monotonic, None, sid);
                }
            }
        },
    }
}

} // verus!
