//! What the words of the other modules mean: the numbers on the wire, what the
//! models show of the values, what is found under a key, and how bytes spell
//! numbers, records and frames.

use vstd::prelude::*;
use vstd::utf8::*;

use crate::bytes;
use crate::consistency;
use crate::constants::{
    CMD_CALL_CREATE, CMD_CALL_CREATE_ACK, CMD_CALL_JOIN, CMD_CALL_JOIN_ACK, CMD_CALL_LEAVE,
    CMD_CALL_PARTICIPANT_EVENT, CMD_CALL_PARTICIPANT_UPDATE, CMD_ERROR, CMD_HELLO, CMD_HELLO_ACK,
    DG_CALL_PACKET, EMPTY_SESSION_TTL_NANOS, EMPTY_SESSION_TTL_SECS, ERR_BAD_SIGNATURE,
    ERR_MALFORMED, ERR_MODE_UNSUPPORTED, ERR_NOT_A_MEMBER, ERR_SESSION_FULL, ERR_UNKNOWN_SESSION,
    EVT_JOINED, EVT_LEFT, MAX_ASC_LEN, MAX_CONTROL_FRAME, MAX_DATAGRAM, MAX_DISPLAY_NAME_LEN,
    MAX_PARTICIPANTS, MODE_MCU, MODE_SFU, PUBKEY_LEN, SERVER_PORT, SESSION_GC_INTERVAL_SECS,
    SESSION_ID_LEN, STATUS_ERR, STATUS_OK, VERSION,
};
use crate::control::{ControlEvent, ControlEventModel};
use crate::handlers;
use crate::identity;
use crate::keyed::{self, Keyed};
use crate::media::{
    self, MediaCounters, MediaModel, MediaOutcome, Outgoing, LOG_EVERY, TOTAL_LOG_EVERY,
};
use crate::protocol::{self, FrameStatus, ParticipantView};
use crate::server::{self, Effect, EffectModel, Member, ServerModel, ServerState};
use crate::session::{
    self, CallMode, CallSession, Participant, ParticipantModel, RegistryModel, SessionModel,
};
use crate::text;
use crate::tlv::{
    self, Record, TlvError, TlvMap, TlvMultiMap, TAG_AUDIO_CONFIG, TAG_CHANNELS, TAG_CREATED_AT,
    TAG_DISPLAY_NAME, TAG_ERROR_CODE, TAG_ERROR_MSG, TAG_EVENT_TYPE, TAG_IDENTITY_PUBKEY,
    TAG_JOINED_AT, TAG_MODE, TAG_PARTICIPANT, TAG_PUBKEY, TAG_SAMPLE_RATE, TAG_SESSION_ID,
    TAG_SIGNATURE, VARINT_END,
};

verus! {

// ── Numbers ──────────────────────────────────────────────────────────────

/// The numbers of the protocol, which its clients go by too.
pub proof fn numbers_on_the_wire()
    ensures
        VERSION == 1,
        SERVER_PORT == 70,
        CMD_HELLO == 0x01,
        CMD_HELLO_ACK == 0x02,
        CMD_CALL_CREATE == 0x10,
        CMD_CALL_CREATE_ACK == 0x11,
        CMD_CALL_JOIN == 0x12,
        CMD_CALL_JOIN_ACK == 0x13,
        CMD_CALL_LEAVE == 0x14,
        CMD_CALL_PARTICIPANT_UPDATE == 0x20,
        CMD_CALL_PARTICIPANT_EVENT == 0x21,
        CMD_ERROR == 0x7F,
        DG_CALL_PACKET == 0x01,
        STATUS_OK == 0,
        STATUS_ERR == 1,
        ERR_UNKNOWN_SESSION == 1,
        ERR_NOT_A_MEMBER == 2,
        ERR_SESSION_FULL == 3,
        ERR_BAD_SIGNATURE == 4,
        ERR_MODE_UNSUPPORTED == 5,
        ERR_MALFORMED == 6,
        EVT_JOINED == 1,
        EVT_LEFT == 2,
        MODE_SFU == 0,
        MODE_MCU == 1,
        SESSION_ID_LEN == 16,
        PUBKEY_LEN == 32,
        TAG_SESSION_ID == 0x01,
        TAG_PUBKEY == 0x02,
        TAG_SIGNATURE == 0x03,
        TAG_DISPLAY_NAME == 0x04,
        TAG_MODE == 0x05,
        TAG_AUDIO_CONFIG == 0x06,
        TAG_SAMPLE_RATE == 0x07,
        TAG_CHANNELS == 0x08,
        TAG_PARTICIPANT == 0x09,
        TAG_EVENT_TYPE == 0x0A,
        TAG_ERROR_CODE == 0x0B,
        TAG_ERROR_MSG == 0x0C,
        TAG_CREATED_AT == 0x0D,
        TAG_JOINED_AT == 0x0E,
        TAG_IDENTITY_PUBKEY == 0x0F,
        VARINT_END == 0x1000_0000,
{
}

/// The limits that the mediator keeps to.
pub proof fn limits()
    ensures
        MAX_DISPLAY_NAME_LEN == 64,
        MAX_ASC_LEN == 64,
        MAX_PARTICIPANTS == 16,
        MAX_CONTROL_FRAME == 64 * 1024,
        MAX_DATAGRAM == 4 * 1024,
        EMPTY_SESSION_TTL_SECS == 5 * 60,
        EMPTY_SESSION_TTL_NANOS == 300 * 1_000_000_000,
        SESSION_GC_INTERVAL_SECS == 30,
        LOG_EVERY == 100,
        TOTAL_LOG_EVERY == 500,
        protocol::DATAGRAM_HEADER_LEN == 54,
        protocol::FRAME_HEADER_LEN == 6,
        identity::SEED_LEN == 32,
        identity::SEED_TEXT_LEN == 64,
{
}

/// The modes and the bytes that stand for them.
pub proof fn modes_on_the_wire(b: u8)
    ensures
        CallMode::Sfu.wire() == 0,
        CallMode::Mcu.wire() == 1,
        CallMode::of_wire(0) == Some(CallMode::Sfu),
        CallMode::of_wire(1) == Some(CallMode::Mcu),
        b > 1 ==> CallMode::of_wire(b) is None,
{
}

/// A reading of the clock is a timestamp as it stands.
pub proof fn timestamps_are_readings(seconds: u64)
    ensures
        session::timestamp(None) is None,
        session::timestamp(Some(seconds)) == Some(seconds as i64),
{
}

// ── What the models show ─────────────────────────────────────────────────

/// The model of a participant shows every field as it is.
pub proof fn participant_fields(p: Participant)
    ensures
        p@.pubkey == p.pubkey@,
        p@.ygg_pubkey == p.ygg_pubkey@,
        p@.display_name == p.display_name@,
        p@.audio_config == p.audio_config@,
        p@.joined_at == p.joined_at,
        p@.control_id == p.control_id,
{
}

/// The model of a session shows every field as it is, and the participants in
/// their order.
pub proof fn session_fields(s: CallSession)
    ensures
        s@.id == s.id@,
        s@.mode == s.mode,
        s@.created_at == s.created_at,
        s@.empty_since == s.empty_since,
        s@.participants.len() == s.participants@.len(),
        forall|i: int|
            0 <= i < s.participants@.len() ==> #[trigger] s@.participants[i]
                == s.participants@[i]@,
{
}

/// The model of an entry in the table of owners shows every field as it is.
pub proof fn member_fields(m: Member)
    ensures
        m@.session == m.session@,
        m@.pubkey == m.pubkey@,
        m@.owner == m.owner,
{
}

/// The model of the server shows every part of it.
pub proof fn server_fields(s: ServerState)
    ensures
        s@.mediator_pub == s.mediator_pub@,
        s@.registry == s.registry@,
        s@.controls == s.streams@.controls,
        s@.members == s.streams@.members,
        s@.next_id == s.streams@.next_id,
{
}

/// The model of a message shows where it goes, its command and its body, and a
/// list of messages is shown in order.
pub proof fn message_fields(e: Effect, es: Seq<Effect>)
    ensures
        e matches Effect::Reply { cmd, body } ==> e@ == (EffectModel::Reply { cmd, body: body@ }),
        e matches Effect::Send { to, cmd, body } ==> e@ == (EffectModel::Send {
            to,
            cmd,
            body: body@,
        }),
        server::effect_models(es).len() == es.len(),
        forall|i: int| 0 <= i < es.len() ==> #[trigger] server::effect_models(es)[i] == es[i]@,
{
}

/// The model of an event shows its command and its body.
pub proof fn event_fields(e: ControlEvent)
    ensures
        e is Opened <==> e@ is Opened,
        e is Ended <==> e@ is Ended,
        e matches ControlEvent::Frame { cmd, body } ==> e@ == (ControlEventModel::Frame {
            cmd,
            body: body@,
        }),
{
}

/// The model of a datagram shows its address, whom it is for and its bytes, and
/// a list of datagrams is shown in order.
pub proof fn datagram_fields(o: Outgoing, list: Seq<Outgoing>)
    ensures
        o@.identity == o.identity@,
        o@.to == o.to@,
        o@.data == o.data@,
        media::outgoing_models(list).len() == list.len(),
        forall|i: int|
            0 <= i < list.len() ==> #[trigger] media::outgoing_models(list)[i] == list[i]@,
{
}

/// The model of what becomes of a datagram tells the same.
pub proof fn outcome_fields(m: MediaOutcome)
    ensures
        m is ParseFail ==> m@ == MediaModel::ParseFail(m->ParseFail_0@),
        m is UnknownSession <==> m@ is UnknownSession,
        m is NotMember <==> m@ is NotMember,
        m is NoTargets <==> m@ is NoTargets,
        m is Mcu <==> m@ is Mcu,
        m is Forward ==> m@ is Forward && m@->Forward_0.len() == m->Forward_0@.len(),
        m is Forward ==> forall|i: int|
            0 <= i < m->Forward_0@.len() ==> #[trigger] m@->Forward_0[i] == m->Forward_0@[i]@,
{
}

/// The model of what the others are told of a participant shows every field.
pub proof fn told_fields<'a>(v: ParticipantView<'a>, list: Seq<ParticipantView<'a>>)
    ensures
        v@.pubkey == v.pubkey@,
        v@.display_name == v.display_name@,
        v@.audio_config == v.audio_config@,
        v@.joined_at == v.joined_at,
        protocol::infos(list).len() == list.len(),
        forall|i: int| 0 <= i < list.len() ==> #[trigger] protocol::infos(list)[i] == list[i]@,
{
}

/// What a map of values holds.
pub proof fn map_contents(m: TlvMap, multi: TlvMultiMap, tag: u8)
    ensures
        tlv::map_view(m).contains_key(tag) <==> m@.contains_key(tag),
        m@.contains_key(tag) ==> tlv::map_view(m)[tag] == m@[tag]@,
        !multi@.contains_key(tag) ==> tlv::multi_view(multi, tag).len() == 0,
        multi@.contains_key(tag) ==> tlv::multi_view(multi, tag).len() == multi@[tag]@.len(),
        multi@.contains_key(tag) ==> forall|i: int|
            0 <= i < multi@[tag]@.len() ==> #[trigger] tlv::multi_view(multi, tag)[i]
                == multi@[tag]@[i]@,
{
}

/// What a request did is what its step says: the state and the messages of the
/// step, or no change and the complaint.
pub proof fn outcome_is_the_step(
    before: ServerModel,
    after: ServerModel,
    r: Result<Vec<Effect>, String>,
    step: Result<handlers::Step, Seq<char>>,
)
    requires
        handlers::outcome(before, after, r, step),
    ensures
        step is Ok <==> r is Ok,
        step is Ok ==> after == step->Ok_0.0 && server::effect_models(r->Ok_0@) == step->Ok_0.1,
        step is Err ==> after == before && r->Err_0@ == step->Err_0,
{
}

// ── What is found under a key ────────────────────────────────────────────

/// The session that is found under an id is the one of the table that has it.
pub proof fn session_has_the_id(r: RegistryModel, id: Seq<u8>, s: SessionModel)
    requires
        r.wf(),
    ensures
        r.session(id) == Some(s) <==> exists|i: int|
            0 <= i < r.sessions.len() && #[trigger] r.sessions[i] == s && s.id == id,
        r.session(id) is None <==> forall|i: int|
            0 <= i < r.sessions.len() ==> (#[trigger] r.sessions[i]).id != id,
{
    if keyed::holds(r.sessions, id) {
        keyed::lemma_found(r.sessions, id);
    }
    if exists|i: int| 0 <= i < r.sessions.len() && #[trigger] r.sessions[i] == s && s.id == id {
        let i = choose|i: int| 0 <= i < r.sessions.len() && #[trigger] r.sessions[i] == s;
        assert(r.sessions[i].key() == id);
        keyed::lemma_place(r.sessions, i);
    }
    if r.session(id) is None {
        assert forall|i: int| 0 <= i < r.sessions.len() implies (#[trigger] r.sessions[i]).id
            != id by {
            assert(r.sessions[i].key() == r.sessions[i].id);
        }
    }
}

/// The participant that is found under an identity is the one of the session
/// that has it.
pub proof fn participant_has_the_identity(
    st: ServerModel,
    id: Seq<u8>,
    pubkey: Seq<u8>,
    p: ParticipantModel,
)
    requires
        st.wf(),
    ensures
        st.participant(id, pubkey) == Some(p) <==> (st.registry.session(id) is Some && p.pubkey
            == pubkey && exists|j: int|
            0 <= j < st.registry.session(id)->Some_0.participants.len() && #[trigger]
                st.registry.session(id)->Some_0.participants[j] == p),
        st.participant(id, pubkey) is None <==> (st.registry.session(id) is None || forall|j: int|
            0 <= j < st.registry.session(id)->Some_0.participants.len() ==> (
            #[trigger] st.registry.session(id)->Some_0.participants[j]).pubkey != pubkey),
{
    if st.registry.session(id) is Some {
        let s = st.registry.session(id)->Some_0;
        let ps = s.participants;
        keyed::lemma_found(st.registry.sessions, id);
        assert(s.wf());
        if keyed::holds(ps, pubkey) {
            keyed::lemma_found(ps, pubkey);
        }
        if p.pubkey == pubkey && exists|j: int| 0 <= j < ps.len() && #[trigger] ps[j] == p {
            let j = choose|j: int| 0 <= j < ps.len() && #[trigger] ps[j] == p;
            keyed::lemma_place(ps, j);
        }
        if st.participant(id, pubkey) is None {
            assert forall|j: int| 0 <= j < ps.len() implies (#[trigger] ps[j]).pubkey
                != pubkey by {
                assert(ps[j].key() == ps[j].pubkey);
            }
        }
    }
}

/// The owner that is found for a participant is the one in the table of owners,
/// and a stream is live while there is a key for it.
pub proof fn owner_is_in_the_table(
    st: ServerModel,
    id: Seq<u8>,
    pubkey: Seq<u8>,
    cid: server::ControlId,
)
    requires
        st.wf(),
    ensures
        st.owner(id, pubkey) == Some(cid) <==> exists|i: int|
            0 <= i < st.members.len() && (#[trigger] st.members[i]).session == id
                && st.members[i].pubkey == pubkey && st.members[i].owner == cid,
        st.live(cid) <==> st.controls.dom().contains(cid),
{
    if keyed::holds(st.members, (id, pubkey)) {
        keyed::lemma_found(st.members, (id, pubkey));
    }
    if exists|i: int|
        0 <= i < st.members.len() && (#[trigger] st.members[i]).session == id
            && st.members[i].pubkey == pubkey && st.members[i].owner == cid {
        let i = choose|i: int|
            0 <= i < st.members.len() && (#[trigger] st.members[i]).session == id
                && st.members[i].pubkey == pubkey && st.members[i].owner == cid;
        assert(st.members[i].key() == (id, pubkey));
        keyed::lemma_place(st.members, i);
    }
}

/// What a stream owns is listed once each: the participants of that session, or
/// of all, whose owner in the table is the stream.
pub proof fn owned_participants_are_listed(
    st: ServerModel,
    cid: server::ControlId,
    only: Option<Seq<u8>>,
)
    requires
        st.wf(),
    ensures
        ({
            let keys = st.owned_by(cid, only);
            &&& forall|i: int|
                0 <= i < keys.len() ==> st.owner((#[trigger] keys[i]).0, keys[i].1) == Some(cid)
                    && (only is None || only == Some(keys[i].0))
            &&& forall|id: Seq<u8>, pk: Seq<u8>| #[trigger]
                st.owner(id, pk) == Some(cid) && (only is None || only == Some(id)) ==> exists|
                    i: int,
                |
                    0 <= i < keys.len() && (#[trigger] keys[i]).0 == id && keys[i].1 == pk
            &&& forall|i: int, j: int|
                0 <= i < j < keys.len() ==> #[trigger] keys[i] != #[trigger] keys[j]
        }),
{
    let keys = st.owned_by(cid, only);
    let wanted = |m: server::MemberModel|
        m.owner == cid && (only is None || only == Some(m.session));
    let f = st.members.filter(wanted);
    consistency::lemma_owned_by(st, cid, only);
    keyed::filter_then_lookup(st.members, wanted, (Seq::empty(), Seq::empty()));
    assert forall|i: int| 0 <= i < keys.len() implies st.owner((#[trigger] keys[i]).0, keys[i].1)
        == Some(cid) && (only is None || only == Some(keys[i].0)) by {
        assert(keys.contains((keys[i].0, keys[i].1)));
    }
    assert forall|id: Seq<u8>, pk: Seq<u8>| #[trigger] st.owner(id, pk) == Some(cid) && (
    only is None || only == Some(id)) implies exists|i: int|
        0 <= i < keys.len() && (#[trigger] keys[i]).0 == id && keys[i].1 == pk by {
        assert(keys.contains((id, pk)));
        let i = choose|i: int| 0 <= i < keys.len() && keys[i] == (id, pk);
        assert(keys[i].0 == id && keys[i].1 == pk);
    }
    assert forall|i: int, j: int| 0 <= i < j < keys.len() implies #[trigger] keys[i]
        != #[trigger] keys[j] by {
        assert(f[i].key() == keys[i] && f[j].key() == keys[j]);
    }
}

/// A server starts with the sessions that it is given, without streams and
/// without owners, and its first stream gets the id one.
pub proof fn server_starts_without_streams(
    mediator_pub: Seq<u8>,
    registry: RegistryModel,
    cid: server::ControlId,
    id: Seq<u8>,
    pubkey: Seq<u8>,
)
    ensures
        ({
            let st = ServerModel::started(mediator_pub, registry);
            &&& st.mediator_pub == mediator_pub
            &&& st.registry == registry
            &&& !st.live(cid)
            &&& st.owner(id, pubkey) is None
            &&& st.next_id == 1
        }),
{
}

// ── Sessions and who is in them ──────────────────────────────────────────

/// A session as it is made: in the mode that was asked for, with the time, and
/// without participants.
pub proof fn session_starts_empty(id: Seq<u8>, mode: CallMode, clock: session::Clock)
    ensures
        ({
            let s = SessionModel::fresh(id, mode, clock);
            &&& s.id == id
            &&& s.mode == mode
            &&& s.created_at == clock.unix
            &&& s.participants.len() == 0
            &&& s.empty_since == Some(clock.monotonic)
        }),
{
}

/// Whoever joins a session is in it, in the place that the identity had, or last
/// where it had none. Everybody else stays where they are, and the session is not
/// empty.
pub proof fn joining_a_session(s: SessionModel, p: ParticipantModel)
    requires
        s.wf(),
    ensures
        s.joined(p).id == s.id,
        s.joined(p).mode == s.mode,
        s.joined(p).created_at == s.created_at,
        s.joined(p).empty_since is None,
        (forall|i: int|
            0 <= i < s.participants.len() ==> (#[trigger] s.participants[i]).pubkey != p.pubkey)
            ==> s.joined(p).participants == s.participants.push(p),
        forall|at: int|
            0 <= at < s.participants.len() && (#[trigger] s.participants[at]).pubkey == p.pubkey
                ==> s.joined(p).participants == s.participants.update(at, p),
{
    assert forall|at: int|
        0 <= at < s.participants.len() && (#[trigger] s.participants[at]).pubkey
            == p.pubkey implies s.joined(p).participants == s.participants.update(at, p) by {
        keyed::lemma_place(s.participants, at);
    }
    if keyed::holds(s.participants, p.pubkey) {
        keyed::lemma_found(s.participants, p.pubkey);
        let at = keyed::place(s.participants, p.pubkey);
        assert(s.participants[at].pubkey == p.pubkey);
    }
}

/// Whoever leaves a session is out of it. Everybody else stays, in their order,
/// and where nobody is left the session is empty from then on.
pub proof fn leaving_a_session(s: SessionModel, at: int, now: u64)
    requires
        s.wf(),
        0 <= at < s.participants.len(),
    ensures
        ({
            let t = s.left(s.participants[at].pubkey, now);
            &&& t.id == s.id
            &&& t.mode == s.mode
            &&& t.created_at == s.created_at
            &&& t.participants == s.participants.remove(at)
            &&& s.participants.len() == 1 ==> t.empty_since == Some(now)
            &&& s.participants.len() > 1 ==> t.empty_since == s.empty_since
        }),
{
    keyed::lemma_place(s.participants, at);
}

/// Who is turned away, and why: everybody where there is no such session, and
/// whoever is not among the sixteen that fill it.
pub proof fn who_is_turned_away(r: RegistryModel, id: Seq<u8>, pubkey: Seq<u8>)
    requires
        r.wf(),
    ensures
        r.session(id) is None ==> r.refusal(id, pubkey) == Some(1u8),
        r.session(id) matches Some(s) ==> r.refusal(id, pubkey) == (if s.participants.len() >= 16
            && (forall|i: int|
            0 <= i < s.participants.len() ==> (#[trigger] s.participants[i]).pubkey != pubkey) {
            Some(3u8)
        } else {
            None
        }),
{
    if r.session(id) is Some {
        let s = r.session(id)->Some_0;
        if s.has(pubkey) {
            keyed::lemma_found(r.sessions, id);
            keyed::lemma_found(s.participants, pubkey);
        } else {
            assert forall|i: int| 0 <= i < s.participants.len() implies (
            #[trigger] s.participants[i]).pubkey != pubkey by {
                assert(s.participants[i].key() == s.participants[i].pubkey);
            }
        }
    }
}

/// Which modes a session can be made in.
pub proof fn which_modes_are_supported(r: RegistryModel)
    ensures
        r.supports(CallMode::Sfu),
        r.supports(CallMode::Mcu) <==> r.mcu_enabled,
{
}

/// What a registry holds once a session is put in, or taken out, and that
/// nothing else about it changes.
pub proof fn registry_after_a_change(
    r: RegistryModel,
    s: SessionModel,
    gone: Seq<u8>,
    id: Seq<u8>,
    now: u64,
)
    requires
        r.wf(),
    ensures
        r.with(s).session(id) == (if id == s.id {
            Some(s)
        } else {
            r.session(id)
        }),
        r.removed(gone).session(id) == (if id == gone {
            None
        } else {
            r.session(id)
        }),
        r.with(s).mcu_enabled == r.mcu_enabled,
        r.removed(gone).mcu_enabled == r.mcu_enabled,
        r.collected(now).mcu_enabled == r.mcu_enabled,
{
    keyed::put_then_lookup(r.sessions, s, id);
    keyed::without_then_lookup(r.sessions, gone, id);
}

/// What collecting takes out: the sessions that have been empty for five minutes
/// or more, whose ids are listed, once each. Every other session stays as it is.
pub proof fn collecting_by_the_clock(r: RegistryModel, now: u64, id: Seq<u8>)
    requires
        r.wf(),
    ensures
        ({
            let s = r.session(id)->Some_0;
            let stale = r.session(id) is Some && s.empty_since is Some && now
                - s.empty_since->Some_0 >= 300_000_000_000;
            let ids = r.expired_ids(now);
            &&& r.collected(now).session(id) == (if stale {
                None
            } else {
                r.session(id)
            })
            &&& stale <==> exists|i: int| 0 <= i < ids.len() && #[trigger] ids[i] == id
            &&& forall|i: int, j: int|
                0 <= i < j < ids.len() ==> #[trigger] ids[i] != #[trigger] ids[j]
        }),
{
    let drop = |s: SessionModel| s.expired(now);
    let f = r.sessions.filter(drop);
    let ids = r.expired_ids(now);
    session::gc_takes_exactly_the_expired(r, now, id);
    keyed::filter_then_lookup(r.sessions, drop, id);
    if keyed::holds(f, id) {
        keyed::lemma_found(f, id);
        let i = keyed::place(f, id);
        assert(ids[i] == id);
    }
    if exists|i: int| 0 <= i < ids.len() && #[trigger] ids[i] == id {
        let i = choose|i: int| 0 <= i < ids.len() && #[trigger] ids[i] == id;
        assert(f[i].key() == id);
        assert(keyed::holds(f, id));
    }
    assert forall|i: int, j: int| 0 <= i < j < ids.len() implies #[trigger] ids[i]
        != #[trigger] ids[j] by {
        assert(f[i].key() == ids[i] && f[j].key() == ids[j]);
    }
}

// ── Numbers as bytes ─────────────────────────────────────────────────────

/// Numbers are big-endian.
pub proof fn numbers_are_big_endian(a: u8, b: u8, c: u8, d: u8, s: Seq<u8>)
    requires
        s.len() == 8,
    ensures
        bytes::be_value(seq![a]) == a as nat,
        bytes::be_value(seq![a, b, c, d]) == a * 0x100_0000 + b * 0x1_0000 + c * 0x100 + d,
        bytes::be_value(s) == s[0] * 0x100_0000_0000_0000 + s[1] * 0x1_0000_0000_0000 + s[2]
            * 0x100_0000_0000 + s[3] * 0x1_0000_0000 + s[4] * 0x100_0000 + s[5] * 0x1_0000 + s[6]
            * 0x100 + s[7],
{
    reveal_with_fuel(bytes::be_value, 9);
}

/// A varint spells a number in base 128, least significant digit first, and its
/// last byte is the one below 128. It takes at most four bytes, and one that the
/// data break off is refused.
pub proof fn varints_are_base_128(s: Seq<u8>, off: int)
    requires
        0 <= off,
    ensures
        ({
            let left = s.len() - off;
            let (a, b, c, d) = (s[off], s[off + 1], s[off + 2], s[off + 3]);
            tlv::varint_at(s, off, 4) == (if left >= 1 && a < 128 {
                Ok((a as nat, 1nat))
            } else if left >= 2 && b < 128 {
                Ok(((a - 128 + 128 * b) as nat, 2nat))
            } else if left >= 3 && c < 128 {
                Ok(((a - 128 + 128 * (b - 128) + 16384 * c) as nat, 3nat))
            } else if left >= 4 && d < 128 {
                Ok(
                    (
                        (a - 128 + 128 * (b - 128) + 16384 * (c - 128) + 2_097_152 * d) as nat,
                        4nat,
                    ),
                )
            } else if left >= 4 {
                Err(TlvError::VarintOverflow)
            } else {
                Err(TlvError::UnexpectedEnd)
            })
        }),
{
    reveal_with_fuel(tlv::varint_at, 5);
}

/// A number is written with as few bytes as it needs, and of one that needs more
/// than four, the first four are those of its last 28 bits.
pub proof fn varints_are_short(v: nat)
    ensures
        v < 0x80 ==> tlv::varint_bytes(v) == seq![v as u8],
        0x80 <= v < 0x4000 ==> tlv::varint_bytes(v) == seq![
            (v % 128 + 128) as u8,
            (v / 128) as u8,
        ],
        0x4000 <= v < 0x20_0000 ==> tlv::varint_bytes(v) == seq![
            (v % 128 + 128) as u8,
            ((v / 128) % 128 + 128) as u8,
            (v / 128 / 128) as u8,
        ],
        0x20_0000 <= v < 0x1000_0000 ==> tlv::varint_bytes(v) == seq![
            (v % 128 + 128) as u8,
            ((v / 128) % 128 + 128) as u8,
            ((v / 128 / 128) % 128 + 128) as u8,
            (v / 128 / 128 / 128) as u8,
        ],
        v >= 0x1000_0000 ==> tlv::varint_bytes(v).take(4) == seq![
            (v % 128 + 128) as u8,
            ((v / 128) % 128 + 128) as u8,
            ((v / 128 / 128) % 128 + 128) as u8,
            ((v / 128 / 128 / 128) % 128 + 128) as u8,
        ],
{
    reveal_with_fuel(tlv::varint_bytes, 5);
    if v >= 0x1000_0000 {
        let b = tlv::varint_bytes(v);
        assert(b[0] == (v % 128 + 128) as u8);
        assert(b[1] == ((v / 128) % 128 + 128) as u8);
        assert(b[2] == ((v / 128 / 128) % 128 + 128) as u8);
        assert(b[3] == ((v / 128 / 128 / 128) % 128 + 128) as u8);
    }
}

/// Numbers of four and of eight bytes are written in full.
pub proof fn numbers_are_written_in_full(v: u32, w: u64)
    ensures
        bytes::be_bytes(v as nat, 4).len() == 4,
        bytes::be_value(bytes::be_bytes(v as nat, 4)) == v,
        bytes::be_bytes(w as nat, 8).len() == 8,
        bytes::be_value(bytes::be_bytes(w as nat, 8)) == w,
{
    reveal_with_fuel(bytes::pow256, 9);
    bytes::be_roundtrip(v as nat, 4);
    bytes::be_roundtrip(w as nat, 8);
}

// ── Records and frames as bytes ──────────────────────────────────────────

/// The bytes of a record: the tag, the length and the value.
pub proof fn record_bytes(tag: u8, value: Seq<u8>)
    requires
        value.len() < 0x1000_0000,
    ensures
        tlv::writable(value),
        tlv::encode_record(tag, value).len() > value.len(),
        tlv::encode_record(tag, value)[0] == tag,
        value.len() < 128 ==> tlv::encode_record(tag, value) == seq![tag, value.len() as u8]
            + value,
        ({
            let s = tlv::encode_record(tag, value);
            let used = s.len() - 1 - value.len();
            &&& 1 <= used <= 4
            &&& tlv::varint_at(s, 1, 4) == Ok::<(nat, nat), TlvError>(
                (value.len(), used as nat),
            )
            &&& s.skip(1 + used) == value
        }),
{
    let s = tlv::encode_record(tag, value);
    let b = tlv::varint_bytes(value.len());
    reveal_with_fuel(tlv::varint_limit, 5);
    assert(s.subrange(1, 1 + b.len() as int) =~= b);
    tlv::varint_roundtrip(s, 1, value.len(), 4);
    assert(s.skip(1 + b.len() as int) =~= value);
    if value.len() < 128 {
        assert(s =~= seq![tag, value.len() as u8] + value);
    }
}

/// What a write of a record leaves behind: the record, or, where the value is too
/// long for its length to be written, the tag, four bytes of the length and an
/// error.
pub proof fn long_values_are_refused(
    before: Seq<u8>,
    after: Seq<u8>,
    tag: u8,
    value: Seq<u8>,
    r: Result<(), TlvError>,
)
    requires
        tlv::record_written(before, after, tag, value, r),
    ensures
        value.len() < 0x1000_0000 ==> r is Ok && after == before + tlv::encode_record(tag, value),
        value.len() >= 0x1000_0000 ==> r == Err::<(), TlvError>(TlvError::VarintOverflow) && after
            == before + seq![tag] + tlv::varint_bytes(value.len()).take(4),
{
    assert(before + (seq![tag] + tlv::varint_bytes(value.len()).take(4)) =~= before + seq![tag]
        + tlv::varint_bytes(value.len()).take(4));
}

/// A payload is there as long as each of its values can be written.
pub proof fn payloads_hold_what_fits(records: Seq<Record>)
    ensures
        (forall|i: int| 0 <= i < records.len() ==> (#[trigger] records[i]).1.len() < 0x1000_0000)
            ==> tlv::parse_records(tlv::payload(records)) == Ok::<Seq<Record>, TlvError>(records),
        (exists|i: int| 0 <= i < records.len() && (#[trigger] records[i]).1.len() >= 0x1000_0000)
            ==> tlv::payload(records).len() == 0,
{
    if forall|i: int| 0 <= i < records.len() ==> (#[trigger] records[i]).1.len() < 0x1000_0000 {
        assert(tlv::all_writable(records));
        tlv::records_roundtrip(records);
    }
    if tlv::all_writable(records) {
        assert forall|i: int| 0 <= i < records.len() implies (#[trigger] records[i]).1.len()
            < 0x1000_0000 by {
            assert(tlv::writable(records[i].1));
        }
    }
}

/// How a payload is read: a tag, a length, as many bytes as it says, and then
/// the rest in the same way. A length that is more than what is left is refused.
pub proof fn records_are_read_in_turn(s: Seq<u8>)
    requires
        s.len() > 0,
    ensures
        tlv::parse_records(Seq::empty()) == Ok::<Seq<Record>, TlvError>(Seq::empty()),
        tlv::varint_at(s, 1, 4) matches Err(e) ==> tlv::parse_records(s) == Err::<
            Seq<Record>,
            TlvError,
        >(e),
        tlv::varint_at(s, 1, 4) matches Ok((n, used)) ==> {
            let from = 1 + used;
            if from + n > s.len() {
                tlv::parse_records(s) == Err::<Seq<Record>, TlvError>(
                    TlvError::OutOfBounds { tag: s[0], length: n as u32 },
                )
            } else {
                match tlv::parse_records(s.subrange((from + n) as int, s.len() as int)) {
                    Err(e) => tlv::parse_records(s) == Err::<Seq<Record>, TlvError>(e),
                    Ok(rest) => {
                        &&& tlv::parse_records(s) is Ok
                        &&& tlv::parse_records(s)->Ok_0.len() == 1 + rest.len()
                        &&& tlv::parse_records(s)->Ok_0[0].0 == s[0]
                        &&& tlv::parse_records(s)->Ok_0[0].1 == s.subrange(
                            from as int,
                            (from + n) as int,
                        )
                        &&& forall|i: int|
                            0 <= i < rest.len() ==> #[trigger] rest[i] == tlv::parse_records(
                                s,
                            )->Ok_0[i + 1]
                    },
                }
            }
        },
{
    match tlv::varint_at(s, 1, 4) {
        Ok((n, used)) => {
            let end = (1 + used + n) as int;
            if end <= s.len() {
                assert(s.skip(end) =~= s.subrange(end, s.len() as int));
            }
        },
        Err(_) => {},
    }
}

/// The value that counts for a tag is that of its last record, and all values of
/// a tag are kept in order where they are asked for.
pub proof fn last_record_counts(records: Seq<Record>, tag: u8, i: int)
    requires
        0 <= i < records.len(),
        records[i].0 == tag,
        forall|j: int| i < j < records.len() ==> (#[trigger] records[j]).0 != tag,
    ensures
        tlv::last_values(records).contains_key(tag),
        tlv::last_values(records)[tag] == records[i].1,
    decreases records.len(),
{
    let front = records.drop_last();
    if i < records.len() - 1 {
        assert(records[records.len() - 1].0 != tag);
        assert(front[i] == records[i]);
        assert forall|j: int| i < j < front.len() implies (#[trigger] front[j]).0 != tag by {
            assert(front[j] == records[j]);
        }
        last_record_counts(front, tag, i);
    }
}

/// A tag that no record has is not there.
pub proof fn absent_tags_are_absent(records: Seq<Record>, tag: u8)
    requires
        forall|j: int| 0 <= j < records.len() ==> (#[trigger] records[j]).0 != tag,
    ensures
        !tlv::last_values(records).contains_key(tag),
        tlv::values_of(records, tag).len() == 0,
    decreases records.len(),
{
    if records.len() > 0 {
        let front = records.drop_last();
        assert(records[records.len() - 1].0 != tag);
        assert forall|j: int| 0 <= j < front.len() implies (#[trigger] front[j]).0 != tag by {
            assert(front[j] == records[j]);
        }
        absent_tags_are_absent(front, tag);
    }
}

/// One more record adds its value to those of its tag, at the end, and leaves
/// the values of every other tag alone.
pub proof fn values_are_kept_in_order(records: Seq<Record>, r: Record, tag: u8)
    ensures
        tlv::values_of(Seq::empty(), tag).len() == 0,
        tlv::values_of(records.push(r), tag) == (if r.0 == tag {
            tlv::values_of(records, tag).push(r.1)
        } else {
            tlv::values_of(records, tag)
        }),
{
    assert(records.push(r).drop_last() =~= records);
}

/// A value is handed out where it is there and has the length that is asked for,
/// or any length where none is. Whatever else is asked for is refused.
pub proof fn values_are_handed_out(m: Map<u8, Seq<u8>>, tag: u8, expected: nat)
    ensures
        tlv::get_bytes(m, tag, expected) is Ok <==> m.contains_key(tag) && (expected == 0
            || m[tag].len() == expected),
        tlv::get_bytes(m, tag, expected) is Ok ==> tlv::get_bytes(m, tag, expected)->Ok_0 == m[tag],
        tlv::get_number(m, tag, expected) is Ok <==> tlv::get_bytes(m, tag, expected) is Ok,
        tlv::get_number(m, tag, expected) is Ok ==> tlv::get_number(m, tag, expected)->Ok_0
            == bytes::be_value(m[tag]),
        tlv::get_text(m, tag) is Ok <==> m.contains_key(tag) && valid_utf8(m[tag]),
        tlv::get_text(m, tag) is Ok ==> tlv::get_text(m, tag)->Ok_0 == decode_utf8(m[tag]),
        !m.contains_key(tag) ==> tlv::get_bytes(m, tag, expected)->Err_0 == "missing tag 0x"@
            + text::hex_byte(tag),
        m.contains_key(tag) && expected > 0 && m[tag].len() != expected ==> tlv::get_bytes(
            m,
            tag,
            expected,
        )->Err_0 == "tag 0x"@ + text::hex_byte(tag) + ": expected "@ + text::decimal(expected)
            + " bytes, got "@ + text::decimal(m[tag].len()),
        tlv::get_number(m, tag, expected) is Err ==> tlv::get_number(m, tag, expected)->Err_0
            == tlv::get_bytes(m, tag, expected)->Err_0,
        !m.contains_key(tag) ==> tlv::get_text(m, tag)->Err_0 == "missing tag 0x"@
            + text::hex_byte(tag),
        m.contains_key(tag) && !valid_utf8(m[tag]) ==> tlv::get_text(m, tag)->Err_0 == "tag 0x"@
            + text::hex_byte(tag) + ": invalid utf8: "@ + tlv::utf8_error_text(m[tag]),
{
}

/// The words of the errors of a payload.
pub proof fn words_of_payload_errors(tag: u8, length: u32)
    ensures
        TlvError::UnexpectedEnd.text() == "varint: unexpected end"@,
        TlvError::VarintOverflow.text() == "varint overflow"@,
        (TlvError::OutOfBounds { tag, length }).text() == "tag 0x"@ + text::hex_byte(tag)
            + " length "@ + text::decimal(length as nat) + " exceeds payload bounds"@,
{
}

/// Decimal digits spell the number: the last digit is the remainder, the digits
/// before it spell the rest, and there is no leading zero.
pub proof fn decimal_spells_the_number(n: nat)
    ensures
        n < 10 ==> text::decimal(n) == seq![('0' as u32 + n) as char],
        n >= 10 ==> text::decimal(n).len() > 1,
        n >= 10 ==> text::decimal(n).drop_last() == text::decimal(n / 10),
        text::decimal(n).last() == ('0' as u32 + n % 10) as char,
        n > 0 ==> text::decimal(n)[0] != '0',
    decreases n,
{
    if n >= 10 {
        decimal_spells_the_number(n / 10);
        assert(text::decimal(n).drop_last() =~= text::decimal(n / 10));
    }
}

/// Two hexadecimal digits spell a byte, in upper case for messages and in lower
/// case for names.
pub proof fn hex_spells_the_byte(b: u8, s: Seq<u8>, i: int)
    requires
        0 <= i < s.len(),
    ensures
        text::hex_byte(b).len() == 2,
        forall|k: int|
            0 <= k < 2 ==> ('0' <= #[trigger] text::hex_byte(b)[k] <= '9' || 'A' <= text::hex_byte(
                b,
            )[k] <= 'F'),
        16 * text::hex_digit(text::hex_byte(b)[0] as u8) + text::hex_digit(
            text::hex_byte(b)[1] as u8,
        ) == b,
        text::hex_lower(s).len() == 2 * s.len(),
        forall|k: int|
            0 <= k < 2 * s.len() ==> ('0' <= #[trigger] text::hex_lower(s)[k] <= '9' || 'a'
                <= text::hex_lower(s)[k] <= 'f'),
        16 * text::hex_digit(text::hex_lower(s)[2 * i] as u8) + text::hex_digit(
            text::hex_lower(s)[2 * i + 1] as u8,
        ) == s[i],
        48 <= b <= 57 ==> text::hex_digit(b) == b - 48,
        65 <= b <= 70 ==> text::hex_digit(b) == b - 65 + 10,
        97 <= b <= 102 ==> text::hex_digit(b) == b - 97 + 10,
{
    assert((2 * i) / 2 == i && (2 * i + 1) / 2 == i);
    assert((2 * i) % 2 == 0 && (2 * i + 1) % 2 == 1);
}

/// How a control frame is read: a version, a command, a length of four bytes,
/// and as many bytes as it says.
pub proof fn frames_are_read_by_their_header(s: Seq<u8>)
    ensures
        s.len() < 6 ==> protocol::frame_status(s) == FrameStatus::More((6 - s.len()) as nat),
        s.len() >= 6 && s[0] != 1 ==> protocol::frame_status(s) == FrameStatus::Bad(
            "bad version "@ + text::decimal(s[0] as nat),
        ),
        s.len() >= 6 && s[0] == 1 ==> {
            let n = s[2] * 0x100_0000 + s[3] * 0x1_0000 + s[4] * 0x100 + s[5];
            if n > 65536 {
                protocol::frame_status(s) == FrameStatus::Bad(
                    "control frame too large: "@ + text::decimal(n as nat),
                )
            } else if s.len() < 6 + n {
                protocol::frame_status(s) == FrameStatus::More((6 + n - s.len()) as nat)
            } else {
                protocol::frame_status(s) == FrameStatus::Done(s[1], s.subrange(6, 6 + n))
            }
        },
{
    if s.len() >= 6 {
        let h = s.subrange(2, 6);
        assert(h =~= seq![s[2], s[3], s[4], s[5]]);
        numbers_are_big_endian(s[2], s[3], s[4], s[5], Seq::new(8, |i: int| 0u8));
    }
}

/// The bytes of a control frame: the header, with the last 32 bits of the length,
/// and the body as it is.
pub proof fn frame_has_a_header(cmd: u8, body: Seq<u8>)
    ensures
        ({
            let s = protocol::frame_bytes(cmd, body);
            &&& s.len() == 6 + body.len()
            &&& s[0] == 1
            &&& s[1] == cmd
            &&& s[2] * 0x100_0000 + s[3] * 0x1_0000 + s[4] * 0x100 + s[5] == body.len()
                % 0x1_0000_0000
            &&& s.subrange(6, s.len() as int) == body
        }),
{
    let s = protocol::frame_bytes(cmd, body);
    let n = body.len() % 0x1_0000_0000;
    reveal_with_fuel(bytes::pow256, 5);
    bytes::lemma_be_bytes_last(body.len());
    bytes::lemma_be_bytes_len(body.len(), 4);
    bytes::be_roundtrip(n, 4);
    let h = bytes::be_bytes(body.len(), 4);
    assert(h =~= seq![s[2], s[3], s[4], s[5]]);
    numbers_are_big_endian(s[2], s[3], s[4], s[5], Seq::new(8, |i: int| 0u8));
    assert(s.subrange(6, s.len() as int) =~= body);
}

/// The bytes of the header of a datagram.
pub proof fn datagram_has_a_header(session_id: Seq<u8>, from_pubkey: Seq<u8>, seq: u32)
    requires
        session_id.len() == 16,
        from_pubkey.len() == 32,
    ensures
        ({
            let s = protocol::packet_header(session_id, from_pubkey, seq as nat);
            &&& s.len() == 54
            &&& s[0] == 1
            &&& s[1] == 1
            &&& s.subrange(2, 18) == session_id
            &&& s.subrange(18, 50) == from_pubkey
            &&& s[50] * 0x100_0000 + s[51] * 0x1_0000 + s[52] * 0x100 + s[53] == seq
        }),
{
    let s = protocol::packet_header(session_id, from_pubkey, seq as nat);
    numbers_are_written_in_full(seq, 0);
    let n = bytes::be_bytes(seq as nat, 4);
    assert(s.subrange(2, 18) =~= session_id);
    assert(s.subrange(18, 50) =~= from_pubkey);
    assert(n =~= seq![s[50], s[51], s[52], s[53]]);
    numbers_are_big_endian(s[50], s[51], s[52], s[53], Seq::new(8, |i: int| 0u8));
}

/// Where the parts of a datagram stand, and what is wrong with one.
pub proof fn datagrams_are_read_by_their_header(s: Seq<u8>)
    ensures
        protocol::packet_session(s) == s.subrange(2, 18),
        protocol::packet_sender(s) == s.subrange(18, 50),
        s.len() < 54 ==> protocol::packet_error(s) == Some("datagram too short"@),
        s.len() >= 54 && s[0] != 1 ==> protocol::packet_error(s) == Some("wrong datagram type"@),
        s.len() >= 54 && s[0] == 1 && s[1] != 1 ==> protocol::packet_error(s) == Some(
            "wrong version"@,
        ),
        s.len() >= 54 && s[0] == 1 && s[1] == 1 ==> protocol::packet_error(s) is None,
        s.len() >= 54 ==> protocol::packet_seq(s) == s[50] * 0x100_0000 + s[51] * 0x1_0000 + s[52]
            * 0x100 + s[53],
{
    if s.len() >= 54 {
        assert(s.subrange(50, 54) =~= seq![s[50], s[51], s[52], s[53]]);
        numbers_are_big_endian(s[50], s[51], s[52], s[53], Seq::new(8, |i: int| 0u8));
    }
}

// ── Counting ─────────────────────────────────────────────────────────────

/// Of the datagrams of a kind, the first and every hundredth are logged, and
/// each counts once.
pub proof fn counting_goes_by_ones(n: u64)
    ensures
        n < u64::MAX ==> media::count_after(n) == n + 1,
        media::count_after(u64::MAX) == 0,
        media::logged(n) <==> n == 1 || n % 100 == 0,
{
}

/// A call packet counts as received and as what became of it, and as nothing
/// else. Every datagram counts in the total.
pub proof fn packets_count_once(c: MediaCounters, fate: MediaModel)
    ensures
        c.after_packet(fate).rx == media::count_after(c.rx),
        c.after_packet(fate).total == c.total,
        c.after_packet(fate).oversized == c.oversized,
        c.after_packet(fate).unknown_type == c.unknown_type,
        fate is ParseFail ==> c.after_packet(fate).parse_fail == media::count_after(c.parse_fail),
        fate is ParseFail ==> c.of_fate(fate) == c.parse_fail,
        fate !is ParseFail ==> c.after_packet(fate).parse_fail == c.parse_fail,
        fate is UnknownSession ==> c.after_packet(fate).unknown_session == media::count_after(
            c.unknown_session,
        ),
        fate is UnknownSession ==> c.of_fate(fate) == c.unknown_session,
        fate !is UnknownSession ==> c.after_packet(fate).unknown_session == c.unknown_session,
        fate is NotMember ==> c.after_packet(fate).not_member == media::count_after(c.not_member),
        fate is NotMember ==> c.of_fate(fate) == c.not_member,
        fate !is NotMember ==> c.after_packet(fate).not_member == c.not_member,
        fate is Mcu ==> c.after_packet(fate).mcu == media::count_after(c.mcu),
        fate is Mcu ==> c.of_fate(fate) == c.mcu,
        fate !is Mcu ==> c.after_packet(fate).mcu == c.mcu,
        fate is Forward ==> c.after_packet(fate).forward == media::count_after(c.forward),
        fate is Forward ==> c.of_fate(fate) == c.forward,
        fate !is Forward ==> c.after_packet(fate).forward == c.forward,
        fate is NoTargets ==> c.after_packet(fate).no_targets == media::count_after(c.no_targets),
        fate is NoTargets ==> c.of_fate(fate) == c.no_targets,
        fate !is NoTargets ==> c.after_packet(fate).no_targets == c.no_targets,
        c.after_arrival().total == media::count_after(c.total),
        c.after_arrival() == (MediaCounters { total: c.after_arrival().total, ..c }),
{
}

// ── Key files ────────────────────────────────────────────────────────────

/// Which characters count as white space.
pub proof fn white_space(c: char)
    ensures
        text::is_white(c) <==> {
            ||| c == ' ' || c == '\n' || c == '\r' || c == '\t'
            ||| c as u32 == 0x0B || c as u32 == 0x0C
            ||| c as u32 == 0x85 || c as u32 == 0xA0 || c as u32 == 0x1680
            ||| 0x2000 <= c as u32 <= 0x200A
            ||| c as u32 == 0x2028 || c as u32 == 0x2029 || c as u32 == 0x202F
            ||| c as u32 == 0x205F || c as u32 == 0x3000
        },
{
}

/// Whether a character counts as white space, without a look at which do.
#[verifier::opaque]
spec fn blank(c: char) -> bool {
    text::is_white(c)
}

/// Where the text without the white space at its ends stands.
#[verifier::spinoff_prover]
proof fn lemma_cut(s: Seq<char>) -> (r: (int, int))
    ensures
        0 <= r.0 <= r.1 <= s.len(),
        text::trimmed(s) == s.subrange(r.0, r.1),
        forall|k: int| 0 <= k < r.0 ==> blank(#[trigger] s[k]),
        forall|k: int| r.1 <= k < s.len() ==> blank(#[trigger] s[k]),
        r.0 < r.1 ==> !blank(s[r.0]) && !blank(s[r.1 - 1]),
    decreases s.len(),
{
    if s.len() == 0 {
        assert(s =~= s.subrange(0, 0));
        (0, 0)
    } else {
        assert(blank(s[0]) == text::is_white(s[0]) && blank(s.last()) == text::is_white(s.last()))
            by {
            reveal(blank);
        }
        if blank(s[0]) {
            let t = s.skip(1);
            let (i, j) = lemma_cut(t);
            assert(t.subrange(i, j) =~= s.subrange(i + 1, j + 1));
            assert forall|k: int| 0 <= k < i + 1 implies blank(#[trigger] s[k]) by {
                if k > 0 {
                    assert(t[k - 1] == s[k]);
                }
            }
            assert forall|k: int| j + 1 <= k < s.len() implies blank(#[trigger] s[k]) by {
                assert(t[k - 1] == s[k]);
            }
            (i + 1, j + 1)
        } else if blank(s.last()) {
            let t = s.drop_last();
            let (i, j) = lemma_cut(t);
            assert(t.subrange(i, j) =~= s.subrange(i, j));
            assert forall|k: int| 0 <= k < i implies blank(#[trigger] s[k]) by {
                assert(t[k] == s[k]);
            }
            assert forall|k: int| j <= k < s.len() implies blank(#[trigger] s[k]) by {
                if k < t.len() {
                    assert(t[k] == s[k]);
                }
            }
            (i, j)
        } else {
            assert(s =~= s.subrange(0, s.len() as int));
            (0, s.len() as int)
        }
    }
}

/// What is cut off a text is white space at its ends, and all of it.
#[verifier::spinoff_prover]
pub proof fn only_the_ends_are_cut(s: Seq<char>)
    ensures
        exists|i: int, j: int|
            0 <= i <= j <= s.len() && text::trimmed(s) == #[trigger] s.subrange(i, j) && (
            forall|k: int| 0 <= k < i ==> text::is_white(#[trigger] s[k])) && (forall|k: int|
                j <= k < s.len() ==> text::is_white(#[trigger] s[k])) && (i < j
                ==> !text::is_white(s[i]) && !text::is_white(s[j - 1])),
{
    let (i, j) = lemma_cut(s);
    assert(text::trimmed(s) == s.subrange(i, j));
    assert forall|k: int| 0 <= k < i implies text::is_white(#[trigger] s[k]) by {
        assert(blank(s[k]));
        reveal(blank);
    }
    assert forall|k: int| j <= k < s.len() implies text::is_white(#[trigger] s[k]) by {
        assert(blank(s[k]));
        reveal(blank);
    }
    assert(i < j ==> !text::is_white(s[i]) && !text::is_white(s[j - 1])) by {
        reveal(blank);
    }
}

/// Which seed is in a key file: its 32 bytes, or the bytes that 64 hexadecimal
/// digits of either case spell; and there is none in any other file.
pub proof fn seed_is_what_the_file_holds(data: Seq<u8>, i: int)
    requires
        0 <= i < 32,
    ensures
        data.len() == 32 ==> identity::seed_of_file(data) == Some(data),
        data.len() != 32 && !valid_utf8(data) ==> identity::seed_of_file(data) is None,
        data.len() != 32 && valid_utf8(data) ==> {
            let d = encode_utf8(text::trimmed(decode_utf8(data)));
            let spelled = d.len() == 64 && (forall|k: int|
                0 <= k < 64 ==> (48 <= #[trigger] d[k] <= 57 || 65 <= d[k] <= 70 || 97 <= d[k]
                    <= 102));
            &&& identity::seed_of_file(data) is Some <==> spelled
            &&& spelled ==> identity::seed_of_file(data)->Some_0.len() == 32
            &&& spelled ==> identity::seed_of_file(data)->Some_0[i] == 16 * text::hex_digit(
                d[2 * i],
            ) + text::hex_digit(d[2 * i + 1])
        },
{
}

/// Which seed a text spells: the bytes of its 64 hexadecimal digits, of either
/// case, once the white space at its ends is cut; and no other text spells one.
pub proof fn seed_is_what_the_text_spells(t: Seq<char>, i: int)
    requires
        0 <= i < 32,
    ensures
        ({
            let d = encode_utf8(text::trimmed(t));
            let spelled = d.len() == 64 && (forall|k: int|
                0 <= k < 64 ==> (48 <= #[trigger] d[k] <= 57 || 65 <= d[k] <= 70 || 97 <= d[k]
                    <= 102));
            &&& identity::seed_of_text(t) is Some <==> spelled
            &&& spelled ==> identity::seed_of_text(t)->Some_0.len() == 32
            &&& spelled ==> identity::seed_of_text(t)->Some_0[i] == 16 * text::hex_digit(d[2 * i])
                + text::hex_digit(d[2 * i + 1])
        }),
{
}

/// There is no seed in a file that could not be read.
pub proof fn missing_file_has_no_seed(data: Vec<u8>)
    ensures
        identity::seed_of_key_file(None) is None,
        identity::seed_of_key_file(Some(data)) == identity::seed_of_file(data@),
{
}

} // verus!
