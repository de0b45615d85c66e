//! What is delivered: what the messages of the server say, and where the
//! datagrams of the participants go.

use vstd::prelude::*;
use vstd::utf8::*;

use crate::bytes;
use crate::constants::{PUBKEY_LEN, SESSION_ID_LEN};
use crate::handlers;
use crate::keyed;
use crate::laws;
use crate::meaning;
use crate::media::{MediaModel, OutgoingModel};
use crate::protocol::{self, ParticipantInfo};
use crate::server::ServerModel;
use crate::session::{CallMode, ParticipantModel};
use crate::tlv::{
    self, Record, TlvError, TAG_AUDIO_CONFIG, TAG_CREATED_AT, TAG_DISPLAY_NAME, TAG_ERROR_CODE,
    TAG_ERROR_MSG, TAG_EVENT_TYPE, TAG_JOINED_AT, TAG_MODE, TAG_PARTICIPANT, TAG_PUBKEY,
    TAG_SESSION_ID,
};

verus! {

// ── Messages ─────────────────────────────────────────────────────────────

/// Whether a body spells exactly these records, in this order.
pub open spec fn spells(body: Seq<u8>, records: Seq<Record>) -> bool {
    tlv::parse_records(body) == Ok::<Seq<Record>, TlvError>(records)
}

/// Whether a value spells a timestamp.
pub open spec fn is_time(value: Seq<u8>, t: i64) -> bool {
    value.len() == 8 && bytes::be_value(value) == t as u64
}

proof fn lemma_time(t: i64)
    ensures
        is_time(protocol::time_bytes(t), t),
{
    reveal_with_fuel(bytes::pow256, 9);
    bytes::be_roundtrip((t as u64) as nat, 8);
}

/// An error says its code and, where there is one, its message.
pub proof fn error_says(code: u8, msg: Seq<char>)
    requires
        encode_utf8(msg).len() < 0x1000_0000,
    ensures
        msg.len() > 0 ==> spells(
            tlv::payload(protocol::error_records(code, msg)),
            seq![(TAG_ERROR_CODE, seq![code]), (TAG_ERROR_MSG, encode_utf8(msg))],
        ),
        msg.len() == 0 ==> spells(
            tlv::payload(protocol::error_records(code, msg)),
            seq![(TAG_ERROR_CODE, seq![code])],
        ),
{
    protocol::error_readable(code, msg);
    let records = protocol::error_records(code, msg);
    if msg.len() > 0 {
        assert(records =~= seq![
            (TAG_ERROR_CODE, seq![code]),
            (TAG_ERROR_MSG, encode_utf8(msg)),
        ]);
    } else {
        assert(records =~= seq![(TAG_ERROR_CODE, seq![code])]);
    }
}

/// The answer to a create request says the session, its mode and when it was
/// made.
pub proof fn create_ack_says(session_id: Seq<u8>, mode: u8, created_at: i64)
    requires
        session_id.len() == SESSION_ID_LEN,
    ensures
        exists|t: Seq<u8>| #[trigger]
            is_time(t, created_at) && spells(
                tlv::encode_records(protocol::create_ack_records(session_id, mode, created_at)),
                seq![(TAG_SESSION_ID, session_id), (TAG_MODE, seq![mode]), (TAG_CREATED_AT, t)],
            ),
{
    protocol::create_ack_readable(session_id, mode, created_at);
    lemma_time(created_at);
    let t = protocol::time_bytes(created_at);
    assert(protocol::create_ack_records(session_id, mode, created_at) =~= seq![
        (TAG_SESSION_ID, session_id),
        (TAG_MODE, seq![mode]),
        (TAG_CREATED_AT, t),
    ]);
}

/// The answer to a join request says the session and its mode.
pub proof fn join_ack_says(session_id: Seq<u8>, mode: u8)
    requires
        session_id.len() == SESSION_ID_LEN,
    ensures
        spells(
            tlv::encode_records(protocol::join_ack_records(session_id, mode)),
            seq![(TAG_SESSION_ID, session_id), (TAG_MODE, seq![mode])],
        ),
{
    protocol::join_ack_readable(session_id, mode);
    assert(protocol::join_ack_records(session_id, mode) =~= seq![
        (TAG_SESSION_ID, session_id),
        (TAG_MODE, seq![mode]),
    ]);
}

/// An event says the session, what has happened, to whom, and under which name.
pub proof fn event_says(
    session_id: Seq<u8>,
    event: u8,
    pubkey: Seq<u8>,
    display_name: Seq<char>,
)
    requires
        session_id.len() == SESSION_ID_LEN,
        pubkey.len() == PUBKEY_LEN,
        encode_utf8(display_name).len() < 0x1000_0000,
    ensures
        spells(
            tlv::payload(protocol::event_records(session_id, event, pubkey, display_name)),
            seq![
                (TAG_SESSION_ID, session_id),
                (TAG_EVENT_TYPE, seq![event]),
                (TAG_PUBKEY, pubkey),
                (TAG_DISPLAY_NAME, encode_utf8(display_name)),
            ],
        ),
{
    protocol::event_readable(session_id, event, pubkey, display_name);
    assert(protocol::event_records(session_id, event, pubkey, display_name) =~= seq![
        (TAG_SESSION_ID, session_id),
        (TAG_EVENT_TYPE, seq![event]),
        (TAG_PUBKEY, pubkey),
        (TAG_DISPLAY_NAME, encode_utf8(display_name)),
    ]);
}

/// Whether a body tells of one participant: the identity, the name, the audio
/// configuration where there is one, and when the participant joined.
pub open spec fn tells_of(
    body: Seq<u8>,
    pubkey: Seq<u8>,
    display_name: Seq<char>,
    audio_config: Seq<u8>,
    joined_at: i64,
) -> bool {
    exists|t: Seq<u8>|
        #![trigger is_time(t, joined_at)]
        is_time(t, joined_at) && spells(
            body,
            if audio_config.len() == 0 {
                seq![
                    (TAG_PUBKEY, pubkey),
                    (TAG_DISPLAY_NAME, encode_utf8(display_name)),
                    (TAG_JOINED_AT, t),
                ]
            } else {
                seq![
                    (TAG_PUBKEY, pubkey),
                    (TAG_DISPLAY_NAME, encode_utf8(display_name)),
                    (TAG_AUDIO_CONFIG, audio_config),
                    (TAG_JOINED_AT, t),
                ]
            },
        )
}

/// What can be told of a participant can be told in a list.
proof fn lemma_list_fits(session_id: Seq<u8>, ps: Seq<ParticipantInfo>)
    requires
        session_id.len() == SESSION_ID_LEN,
        forall|i: int|
            0 <= i < ps.len() ==> (#[trigger] ps[i]).pubkey.len() == PUBKEY_LEN && encode_utf8(
                ps[i].display_name,
            ).len() + ps[i].audio_config.len() < 0x1000_0000 - 60,
    ensures
        protocol::update_writable(session_id, ps),
{
    let records = protocol::update_records(session_id, ps);
    protocol::lemma_update_shape(session_id, ps);
    assert forall|i: int| 0 <= i < ps.len() implies tlv::all_writable(
        protocol::participant_records(#[trigger] ps[i]),
    ) by {
        protocol::lemma_participant_len(ps[i]);
    }
    assert forall|j: int| 0 <= j < records.len() implies tlv::writable(
        (#[trigger] records[j]).1,
    ) by {
        if j > 0 {
            assert(records[(j - 1) + 1] == records[j]);
            protocol::lemma_participant_len(ps[j - 1]);
        }
    }
}

/// A participant list says the session, and then tells of each participant, in
/// order.
pub proof fn list_says(session_id: Seq<u8>, ps: Seq<ParticipantInfo>)
    requires
        session_id.len() == SESSION_ID_LEN,
        forall|i: int|
            0 <= i < ps.len() ==> (#[trigger] ps[i]).pubkey.len() == PUBKEY_LEN && encode_utf8(
                ps[i].display_name,
            ).len() + ps[i].audio_config.len() < 0x1000_0000 - 60,
    ensures
        ({
            let body = protocol::update_payload(session_id, ps);
            let records = tlv::parse_records(body)->Ok_0;
            &&& tlv::parse_records(body) is Ok
            &&& records.len() == ps.len() + 1
            &&& records[0] == (TAG_SESSION_ID, session_id)
            &&& forall|i: int|
                0 <= i < ps.len() ==> (#[trigger] records[i + 1]).0 == TAG_PARTICIPANT && tells_of(
                    records[i + 1].1,
                    ps[i].pubkey,
                    ps[i].display_name,
                    ps[i].audio_config,
                    ps[i].joined_at,
                )
        }),
{
    lemma_list_fits(session_id, ps);
    protocol::update_readable(session_id, ps);
    let records = tlv::parse_records(protocol::update_payload(session_id, ps))->Ok_0;
    assert forall|i: int| 0 <= i < ps.len() implies (#[trigger] records[i + 1]).0
        == TAG_PARTICIPANT && tells_of(
        records[i + 1].1,
        ps[i].pubkey,
        ps[i].display_name,
        ps[i].audio_config,
        ps[i].joined_at,
    ) by {
        let p = ps[i];
        let t = protocol::time_bytes(p.joined_at);
        lemma_time(p.joined_at);
        assert(protocol::update_records(session_id, ps)[i + 1].0 == TAG_PARTICIPANT);
        if p.audio_config.len() == 0 {
            assert(protocol::participant_records(p) =~= seq![
                (TAG_PUBKEY, p.pubkey),
                (TAG_DISPLAY_NAME, encode_utf8(p.display_name)),
                (TAG_JOINED_AT, t),
            ]);
        } else {
            assert(protocol::participant_records(p) =~= seq![
                (TAG_PUBKEY, p.pubkey),
                (TAG_DISPLAY_NAME, encode_utf8(p.display_name)),
                (TAG_AUDIO_CONFIG, p.audio_config),
                (TAG_JOINED_AT, t),
            ]);
        }
        assert(is_time(t, p.joined_at));
    }
}

/// The participant list of a session tells of its participants what their
/// records hold: the identity, and not the routing key, the name, the audio
/// configuration where there is one, and when they joined.
pub proof fn list_tells_of_the_participants(st: ServerModel, session: Seq<u8>)
    requires
        st.consistent(),
        st.registry.session(session) is Some,
    ensures
        ({
            let s = st.registry.session(session)->Some_0;
            let body = protocol::update_payload(s.id, handlers::infos_of(s.participants));
            list_of(body, session, s.participants)
        }),
{
    let s = st.registry.session(session)->Some_0;
    let ps = handlers::infos_of(s.participants);
    laws::lemma_session_members(st, session);
    assert forall|i: int| 0 <= i < ps.len() implies (#[trigger] ps[i]).pubkey.len() == PUBKEY_LEN
        && encode_utf8(ps[i].display_name).len() + ps[i].audio_config.len() < 0x1000_0000
        - 60 by {
        assert(s.participants[i].within_limits());
    }
    list_says(session, ps);
    let records = tlv::parse_records(protocol::update_payload(session, ps))->Ok_0;
    assert forall|i: int| 0 <= i < s.participants.len() implies (#[trigger] records[i + 1]).0
        == TAG_PARTICIPANT && tells_of(
        records[i + 1].1,
        s.participants[i].pubkey,
        s.participants[i].display_name,
        s.participants[i].audio_config,
        s.participants[i].joined_at,
    ) by {
        assert(ps[i] == handlers::info(s.participants[i]));
    }
}

/// Whether a body is the list of these participants of a session.
pub open spec fn list_of(
    body: Seq<u8>,
    session: Seq<u8>,
    participants: Seq<ParticipantModel>,
) -> bool {
    let records = tlv::parse_records(body)->Ok_0;
    &&& tlv::parse_records(body) is Ok
    &&& records.len() == participants.len() + 1
    &&& records[0] == (TAG_SESSION_ID, session)
    &&& forall|i: int|
        0 <= i < participants.len() ==> (#[trigger] records[i + 1]).0 == TAG_PARTICIPANT
            && tells_of(
            records[i + 1].1,
            participants[i].pubkey,
            participants[i].display_name,
            participants[i].audio_config,
            participants[i].joined_at,
        )
}

// ── Datagrams ────────────────────────────────────────────────────────────

/// What becomes of a datagram, by its bytes and by who takes part: a broken one,
/// one for no session and one of somebody who does not take part are dropped; a
/// member's is forwarded where there is anybody else.
pub proof fn fate_is_decided(st: ServerModel, data: Seq<u8>)
    requires
        st.wf(),
    ensures
        ({
            let session = data.subrange(2, 18);
            let sender = data.subrange(18, 50);
            let fate = st.packet_fate(data);
            if data.len() < 54 {
                fate == MediaModel::ParseFail("datagram too short"@)
            } else if data[0] != 1 {
                fate == MediaModel::ParseFail("wrong datagram type"@)
            } else if data[1] != 1 {
                fate == MediaModel::ParseFail("wrong version"@)
            } else {
                match st.registry.session(session) {
                    None => fate == MediaModel::UnknownSession,
                    Some(s) => if forall|i: int|
                        0 <= i < s.participants.len() ==> (#[trigger] s.participants[i]).pubkey
                            != sender {
                        fate == MediaModel::NotMember
                    } else if s.mode == CallMode::Mcu {
                        fate == MediaModel::Mcu
                    } else if s.participants.len() == 1 {
                        fate == MediaModel::NoTargets
                    } else {
                        fate is Forward
                    },
                }
            }
        }),
{
    let session = data.subrange(2, 18);
    let sender = data.subrange(18, 50);
    meaning::datagrams_are_read_by_their_header(data);
    if data.len() >= 54 && st.registry.session(session) is Some {
        let s = st.registry.session(session)->Some_0;
        keyed::lemma_found(st.registry.sessions, session);
        assert(s.wf());
        laws::lemma_fan_out(s, sender, data);
        if !s.has(sender) {
            assert forall|i: int| 0 <= i < s.participants.len() implies (
            #[trigger] s.participants[i]).pubkey != sender by {
                keyed::lemma_place(s.participants, i);
            }
        } else {
            keyed::lemma_found(s.participants, sender);
        }
    }
}

/// Where a forwarded datagram goes. Every participant of the session but the
/// sender gets it once, at the routing key of the participant and with every byte
/// as it came in; and every datagram that is sent is for such a participant.
pub proof fn forwarded_to_the_routing_keys(st: ServerModel, data: Seq<u8>)
    requires
        st.wf(),
        st.packet_fate(data) is Forward,
    ensures
        ({
            let session = data.subrange(2, 18);
            let sender = data.subrange(18, 50);
            let ps = st.registry.session(session)->Some_0.participants;
            let out = st.packet_fate(data)->Forward_0;
            &&& st.registry.session(session) is Some
            &&& forall|k: int|
                0 <= k < out.len() ==> (#[trigger] out[k]).data == data && out[k].identity != sender
                    && exists|i: int|
                    0 <= i < ps.len() && (#[trigger] ps[i]).pubkey == out[k].identity
                        && ps[i].ygg_pubkey == out[k].to
            &&& forall|i: int|
                0 <= i < ps.len() && (#[trigger] ps[i]).pubkey != sender ==> exists|k: int|
                    0 <= k < out.len() && (#[trigger] out[k]).identity == ps[i].pubkey && out[k].to
                        == ps[i].ygg_pubkey && out[k].data == data
            &&& out.len() == ps.len() - 1
        }),
{
    let session = data.subrange(2, 18);
    let sender = data.subrange(18, 50);
    meaning::datagrams_are_read_by_their_header(data);
    let s = st.registry.session(session)->Some_0;
    let ps = s.participants;
    let out = st.packet_fate(data)->Forward_0;
    keyed::lemma_found(st.registry.sessions, session);
    assert(s.wf());
    laws::lemma_fan_out(s, sender, data);
    assert forall|k: int| 0 <= k < out.len() implies (#[trigger] out[k]).data == data
        && out[k].identity != sender && exists|i: int|
        0 <= i < ps.len() && (#[trigger] ps[i]).pubkey == out[k].identity && ps[i].ygg_pubkey
            == out[k].to by {
        assert(out.contains(out[k]));
        keyed::lemma_found(ps, out[k].identity);
        let i = keyed::place(ps, out[k].identity);
        assert(ps[i].pubkey == out[k].identity && ps[i].ygg_pubkey == out[k].to);
    }
    assert forall|i: int| 0 <= i < ps.len() && (#[trigger] ps[i]).pubkey != sender implies exists|
        k: int,
    |
        0 <= k < out.len() && (#[trigger] out[k]).identity == ps[i].pubkey && out[k].to
            == ps[i].ygg_pubkey && out[k].data == data by {
        keyed::lemma_place(ps, i);
        let o = OutgoingModel { identity: ps[i].pubkey, to: ps[i].ygg_pubkey, data };
        assert(o == ps[i].datagram(data));
        assert(out.contains(o));
        let k = choose|k: int| 0 <= k < out.len() && out[k] == o;
        assert(out[k].identity == ps[i].pubkey);
    }
}

} // verus!
