//! Control streams: requests, answers and notices.

use mimir_call_mediator::constants::{
    CMD_CALL_CREATE, CMD_CALL_CREATE_ACK, CMD_CALL_JOIN, CMD_CALL_JOIN_ACK, CMD_CALL_LEAVE,
    CMD_CALL_PARTICIPANT_EVENT, CMD_CALL_PARTICIPANT_UPDATE, CMD_ERROR, CMD_HELLO, CMD_HELLO_ACK,
    EMPTY_SESSION_TTL_NANOS, ERR_MALFORMED, ERR_MODE_UNSUPPORTED, ERR_SESSION_FULL,
    ERR_UNKNOWN_SESSION, EVT_JOINED, EVT_LEFT, VERSION,
};
use mimir_call_mediator::control::{serve_control, serve_control_with_id, ControlEvent};
use mimir_call_mediator::handlers::{
    dispatch, dispatch_with_id, keeps_timestamp, on_control_disconnect, owned_members,
};
use mimir_call_mediator::protocol::encode_control_frame;
use mimir_call_mediator::server::{Effect, ServerState};
use mimir_call_mediator::session::{Clock, PubKey, SessionId, SessionRegistry};
use mimir_call_mediator::tlv::{
    parse_tlvs, parse_tlvs_multi, tlv_encode_bytes, tlv_encode_string, tlv_encode_u8,
    tlv_get_bytes, tlv_get_string, tlv_get_u64, tlv_get_u8, TAG_AUDIO_CONFIG, TAG_CREATED_AT,
    TAG_DISPLAY_NAME, TAG_ERROR_CODE, TAG_ERROR_MSG, TAG_EVENT_TYPE, TAG_IDENTITY_PUBKEY, TAG_MODE,
    TAG_PARTICIPANT, TAG_PUBKEY, TAG_SESSION_ID,
};

const SID: SessionId = [0x51; 16];

fn at(seconds: u64) -> Clock {
    Clock { unix: 1_700_000_000 + seconds as i64, monotonic: seconds * 1_000_000_000 }
}

fn key(n: u8) -> PubKey {
    [n; 32]
}

/// A server with the streams 1 to `n` open; stream `i` has the routing key `i`.
fn server_with_streams(n: u64) -> ServerState {
    let mut st = ServerState::new(key(0xEE), SessionRegistry::new());
    for i in 1..=n {
        let (cid, pk) = st.accept_control(&key(i as u8)).unwrap();
        assert_eq!(cid, i);
        let effects = serve_control(&mut st, cid, &pk, ControlEvent::Opened, at(0));
        assert_eq!(effects.len(), 0);
    }
    st
}

fn frame(st: &mut ServerState, cid: u64, cmd: u8, body: Vec<u8>) -> Vec<Effect> {
    let event = ControlEvent::Frame { cmd, body };
    serve_control_with_id(st, cid, &key(cid as u8), event, at(10), SID)
}

fn end(st: &mut ServerState, cid: u64, seconds: u64) -> Vec<Effect> {
    serve_control(st, cid, &key(cid as u8), ControlEvent::Ended, at(seconds))
}

fn create_body(mode: u8) -> Vec<u8> {
    let mut b = Vec::new();
    tlv_encode_u8(&mut b, TAG_MODE, mode).unwrap();
    b
}

fn join_body(identity: u8, name: &str) -> Vec<u8> {
    let mut b = Vec::new();
    tlv_encode_bytes(&mut b, TAG_SESSION_ID, &SID).unwrap();
    tlv_encode_bytes(&mut b, TAG_IDENTITY_PUBKEY, &key(identity)).unwrap();
    tlv_encode_string(&mut b, TAG_DISPLAY_NAME, name).unwrap();
    b
}

fn leave_body() -> Vec<u8> {
    let mut b = Vec::new();
    tlv_encode_bytes(&mut b, TAG_SESSION_ID, &SID).unwrap();
    b
}

fn reply(e: &Effect) -> (u8, &[u8]) {
    match e {
        Effect::Reply { cmd, body } => (*cmd, body),
        Effect::Send { .. } => panic!("a notice where a reply was due"),
    }
}

fn notice(e: &Effect) -> (u64, u8, &[u8]) {
    match e {
        Effect::Send { to, cmd, body } => (*to, *cmd, body),
        Effect::Reply { .. } => panic!("a reply where a notice was due"),
    }
}

fn refusal(effects: &[Effect]) -> (u8, String) {
    assert_eq!(effects.len(), 1);
    let (cmd, body) = reply(&effects[0]);
    assert_eq!(cmd, CMD_ERROR);
    let m = parse_tlvs(body).unwrap();
    (tlv_get_u8(&m, TAG_ERROR_CODE).unwrap(), tlv_get_string(&m, TAG_ERROR_MSG).unwrap())
}

/// The streams that were told of an event, with the kind and the participant.
fn events(effects: &[Effect]) -> Vec<(u64, u8, u8)> {
    let mut r = Vec::new();
    for e in effects {
        let (to, cmd, body) = notice(e);
        assert_eq!(cmd, CMD_CALL_PARTICIPANT_EVENT);
        let m = parse_tlvs(body).unwrap();
        assert_eq!(tlv_get_bytes(&m, TAG_SESSION_ID, 16).unwrap(), SID);
        let who = tlv_get_bytes(&m, TAG_PUBKEY, 32).unwrap()[0];
        r.push((to, tlv_get_u8(&m, TAG_EVENT_TYPE).unwrap(), who));
    }
    r
}

fn members(st: &ServerState) -> Vec<u8> {
    st.registry.get(&SID).unwrap().participants.iter().map(|p| p.pubkey[0]).collect()
}

#[test]
fn control_ids_count_up() {
    let mut st = ServerState::new(key(1), SessionRegistry::new());
    assert_eq!(st.next_control_id(), 1);
    assert_eq!(st.next_control_id(), 2);
    assert_eq!(st.accept_control(&[7; 31]), Err(31));
    assert_eq!(st.accept_control(&[7; 32]), Ok((4, [7; 32])));
}

#[test]
fn hello_is_acknowledged() {
    let mut st = server_with_streams(1);
    let effects = frame(&mut st, 1, CMD_HELLO, vec![]);
    assert_eq!(effects.len(), 1);
    let (cmd, body) = reply(&effects[0]);
    assert_eq!(cmd, CMD_HELLO_ACK);
    assert_eq!(parse_tlvs(body).unwrap().len(), 0);
    // The version is in the header of the frame.
    assert_eq!(encode_control_frame(cmd, body), vec![VERSION, CMD_HELLO_ACK, 0, 0, 0, 0]);
}

#[test]
fn create_makes_a_session() {
    let mut st = server_with_streams(1);
    let effects = frame(&mut st, 1, CMD_CALL_CREATE, create_body(0));
    assert_eq!(effects.len(), 1);
    let (cmd, body) = reply(&effects[0]);
    assert_eq!(cmd, CMD_CALL_CREATE_ACK);
    let m = parse_tlvs(body).unwrap();
    assert_eq!(tlv_get_bytes(&m, TAG_SESSION_ID, 16).unwrap(), SID);
    assert_eq!(tlv_get_u8(&m, TAG_MODE), Ok(0));
    assert_eq!(tlv_get_u64(&m, TAG_CREATED_AT), Ok(1_700_000_010));
    assert_eq!(members(&st), Vec::<u8>::new());
}

#[test]
fn create_with_a_random_id() {
    let mut st = server_with_streams(1);
    let effects = dispatch(&mut st, 1, &key(1), CMD_CALL_CREATE, &create_body(0), at(3)).unwrap();
    let (_, body) = reply(&effects[0]);
    let m = parse_tlvs(body).unwrap();
    let id: SessionId = tlv_get_bytes(&m, TAG_SESSION_ID, 16).unwrap().try_into().unwrap();
    assert_eq!(st.registry.get(&id).unwrap().created_at, 1_700_000_003);
}

#[test]
fn create_can_be_refused() {
    let mut st = server_with_streams(1);
    assert_eq!(
        refusal(&frame(&mut st, 1, CMD_CALL_CREATE, create_body(1))),
        (ERR_MODE_UNSUPPORTED, "mode unsupported".to_string())
    );
    assert_eq!(
        refusal(&frame(&mut st, 1, CMD_CALL_CREATE, create_body(7))),
        (ERR_MALFORMED, "bad mode 7".to_string())
    );
    assert_eq!(
        refusal(&frame(&mut st, 1, CMD_CALL_CREATE, vec![])),
        (ERR_MALFORMED, "missing tag 0x05".to_string())
    );
    assert_eq!(
        refusal(&frame(&mut st, 1, CMD_CALL_CREATE, vec![5])),
        (ERR_MALFORMED, "bad tlv: varint: unexpected end".to_string())
    );
    assert!(st.registry.get(&SID).is_none());
}

#[test]
fn every_answer_is_a_payload() {
    let mut st = server_with_streams(2);
    let mut sent = frame(&mut st, 1, CMD_HELLO, vec![]);
    sent.extend(frame(&mut st, 1, CMD_CALL_CREATE, create_body(0)));
    sent.extend(frame(&mut st, 1, CMD_CALL_JOIN, join_body(0xA1, "alice")));
    sent.extend(frame(&mut st, 2, CMD_CALL_JOIN, join_body(0xB2, "bob")));
    sent.extend(frame(&mut st, 2, 0x33, vec![]));
    sent.extend(end(&mut st, 1, 20));
    assert_eq!(sent.len(), 11);
    for e in &sent {
        let body = match e {
            Effect::Reply { body, .. } => body,
            Effect::Send { body, .. } => body,
        };
        assert!(parse_tlvs(body).is_ok());
    }
}

#[test]
fn unknown_command_is_refused() {
    let mut st = server_with_streams(1);
    assert_eq!(
        refusal(&frame(&mut st, 1, 0xAB, vec![])),
        (ERR_MALFORMED, "unknown cmd 0xAB".to_string())
    );
    assert_eq!(
        dispatch_with_id(&mut st, 1, &key(1), 0x0C, &[], at(0), SID).err(),
        Some("unknown cmd 0x0C".to_string())
    );
}

#[test]
fn join_is_acknowledged_and_told() {
    let mut st = server_with_streams(2);
    frame(&mut st, 1, CMD_CALL_CREATE, create_body(0));
    let effects = frame(&mut st, 1, CMD_CALL_JOIN, join_body(0xA1, "alice"));
    assert_eq!(effects.len(), 3);
    let (cmd, body) = reply(&effects[0]);
    assert_eq!(cmd, CMD_CALL_JOIN_ACK);
    let m = parse_tlvs(body).unwrap();
    assert_eq!(tlv_get_bytes(&m, TAG_SESSION_ID, 16).unwrap(), SID);
    assert_eq!(tlv_get_u8(&m, TAG_MODE), Ok(0));
    assert_eq!(events(&effects[2..]), vec![(1, EVT_JOINED, 0xA1)]);

    let effects = frame(&mut st, 2, CMD_CALL_JOIN, join_body(0xB2, "bob"));
    let (to, cmd, body) = notice(&effects[1]);
    assert_eq!((to, cmd), (2, CMD_CALL_PARTICIPANT_UPDATE));
    let list = parse_tlvs_multi(body).unwrap();
    let names: Vec<String> = list[&TAG_PARTICIPANT]
        .iter()
        .map(|p| tlv_get_string(&parse_tlvs(p).unwrap(), TAG_DISPLAY_NAME).unwrap())
        .collect();
    assert_eq!(names, vec!["alice", "bob"]);
    assert_eq!(events(&effects[2..]), vec![(1, EVT_JOINED, 0xB2), (2, EVT_JOINED, 0xB2)]);
    let p = &st.registry.get(&SID).unwrap().participants[1];
    assert_eq!((p.pubkey, p.ygg_pubkey, p.control_id), (key(0xB2), key(2), 2));
    assert_eq!(p.joined_at, 1_700_000_010);
}

#[test]
fn join_without_identity_or_name() {
    let mut st = server_with_streams(1);
    frame(&mut st, 1, CMD_CALL_CREATE, create_body(0));
    frame(&mut st, 1, CMD_CALL_JOIN, leave_body());
    let p = &st.registry.get(&SID).unwrap().participants[0];
    assert_eq!(p.pubkey, key(1));
    assert_eq!(p.display_name, "01010101");
    assert_eq!(p.audio_config, Vec::<u8>::new());
}

#[test]
fn join_with_an_unreadable_name_and_a_short_identity() {
    let mut st = server_with_streams(1);
    frame(&mut st, 1, CMD_CALL_CREATE, create_body(0));
    let mut b = leave_body();
    tlv_encode_bytes(&mut b, TAG_IDENTITY_PUBKEY, &[0xA1; 31]).unwrap();
    tlv_encode_bytes(&mut b, TAG_DISPLAY_NAME, &[0xFF]).unwrap();
    tlv_encode_bytes(&mut b, TAG_AUDIO_CONFIG, &[0x12, 0x10]).unwrap();
    frame(&mut st, 1, CMD_CALL_JOIN, b);
    let p = &st.registry.get(&SID).unwrap().participants[0];
    assert_eq!(p.pubkey, key(1));
    assert_eq!(p.display_name, "01010101");
    assert_eq!(p.audio_config, vec![0x12, 0x10]);
}

#[test]
fn join_can_be_refused() {
    let mut st = server_with_streams(20);
    assert_eq!(
        refusal(&frame(&mut st, 1, CMD_CALL_JOIN, join_body(0xA1, "a"))),
        (ERR_UNKNOWN_SESSION, "unknown session".to_string())
    );
    frame(&mut st, 1, CMD_CALL_CREATE, create_body(0));
    assert_eq!(
        refusal(&frame(&mut st, 1, CMD_CALL_JOIN, vec![1, 2, 0, 0])),
        (ERR_MALFORMED, "tag 0x01: expected 16 bytes, got 2".to_string())
    );
    assert_eq!(
        refusal(&frame(&mut st, 1, CMD_CALL_JOIN, join_body(1, &"x".repeat(65)))),
        (ERR_MALFORMED, "display name too long".to_string())
    );
    let mut b = join_body(1, &"x".repeat(64));
    tlv_encode_bytes(&mut b, TAG_AUDIO_CONFIG, &[0; 65]).unwrap();
    assert_eq!(
        refusal(&frame(&mut st, 1, CMD_CALL_JOIN, b)),
        (ERR_MALFORMED, "audio_config too long".to_string())
    );
    assert_eq!(members(&st), Vec::<u8>::new());
    for i in 1..=16u64 {
        frame(&mut st, i, CMD_CALL_JOIN, join_body(i as u8, "p"));
    }
    assert_eq!(
        refusal(&frame(&mut st, 17, CMD_CALL_JOIN, join_body(17, "p"))),
        (ERR_SESSION_FULL, "session full".to_string())
    );
    assert_eq!(members(&st).len(), 16);
    assert_eq!(frame(&mut st, 17, CMD_CALL_JOIN, join_body(16, "p")).len(), 18);
}

#[test]
fn leave_undoes_join() {
    let mut st = server_with_streams(2);
    frame(&mut st, 1, CMD_CALL_CREATE, create_body(0));
    frame(&mut st, 1, CMD_CALL_JOIN, join_body(0xA1, "alice"));
    frame(&mut st, 2, CMD_CALL_JOIN, join_body(0xB2, "bob"));
    let effects = frame(&mut st, 2, CMD_CALL_LEAVE, leave_body());
    assert_eq!(events(&effects), vec![(1, EVT_LEFT, 0xB2)]);
    assert_eq!(members(&st), vec![0xA1]);
    assert_eq!(st.owner_of(&SID, &key(0xB2)), None);
    assert_eq!(st.owner_of(&SID, &key(0xA1)), Some(1));
    assert_eq!(frame(&mut st, 2, CMD_CALL_LEAVE, leave_body()).len(), 0);
    assert_eq!(frame(&mut st, 1, CMD_CALL_LEAVE, leave_body()).len(), 0);
    assert_eq!(st.registry.get(&SID).unwrap().empty_since, Some(10_000_000_000));
}

#[test]
fn leave_takes_all_that_the_stream_owns() {
    let mut st = server_with_streams(2);
    frame(&mut st, 1, CMD_CALL_CREATE, create_body(0));
    frame(&mut st, 1, CMD_CALL_JOIN, join_body(0xA1, "one"));
    frame(&mut st, 1, CMD_CALL_JOIN, join_body(0xA2, "two"));
    frame(&mut st, 2, CMD_CALL_JOIN, join_body(0xB1, "bob"));
    let effects = frame(&mut st, 1, CMD_CALL_LEAVE, leave_body());
    assert_eq!(
        events(&effects),
        vec![(1, EVT_LEFT, 0xA1), (2, EVT_LEFT, 0xA1), (2, EVT_LEFT, 0xA2)]
    );
    assert_eq!(members(&st), vec![0xB1]);
}

#[test]
fn leave_can_be_refused() {
    let mut st = server_with_streams(1);
    assert_eq!(
        refusal(&frame(&mut st, 1, CMD_CALL_LEAVE, vec![])),
        (ERR_MALFORMED, "missing tag 0x01".to_string())
    );
    assert_eq!(
        refusal(&frame(&mut st, 1, CMD_CALL_LEAVE, vec![9, 9])),
        (ERR_MALFORMED, "bad tlv: tag 0x09 length 9 exceeds payload bounds".to_string())
    );
}

#[test]
fn ended_stream_takes_its_participants_along() {
    let mut st = server_with_streams(3);
    frame(&mut st, 1, CMD_CALL_CREATE, create_body(0));
    for i in 1..=3u64 {
        frame(&mut st, i, CMD_CALL_JOIN, join_body(i as u8, "p"));
    }
    let effects = end(&mut st, 2, 20);
    assert_eq!(events(&effects), vec![(1, EVT_LEFT, 2), (3, EVT_LEFT, 2)]);
    assert!(!st.is_live(2));
    assert!(st.is_live(1));
    assert_eq!(members(&st), vec![1, 3]);
    assert_eq!(end(&mut st, 2, 21).len(), 0);
    end(&mut st, 1, 22);
    end(&mut st, 3, 23);
    assert_eq!(st.registry.get(&SID).unwrap().empty_since, Some(23_000_000_000));
    assert_eq!(st.registry.gc_empty(23_000_000_000 + EMPTY_SESSION_TTL_NANOS), vec![SID]);
}

#[test]
fn disconnect_alone_takes_out_what_the_stream_owns() {
    let mut st = server_with_streams(2);
    frame(&mut st, 1, CMD_CALL_CREATE, create_body(0));
    frame(&mut st, 1, CMD_CALL_JOIN, join_body(1, "p"));
    frame(&mut st, 2, CMD_CALL_JOIN, join_body(2, "q"));
    let effects = on_control_disconnect(&mut st, 1, 5);
    assert_eq!(events(&effects), vec![(2, EVT_LEFT, 1)]);
    assert_eq!(members(&st), vec![2]);
}

#[test]
fn rejoining_moves_the_participant() {
    let mut st = server_with_streams(2);
    frame(&mut st, 1, CMD_CALL_CREATE, create_body(0));
    frame(&mut st, 1, CMD_CALL_JOIN, join_body(0xA1, "alice"));
    frame(&mut st, 2, CMD_CALL_JOIN, join_body(0xA1, "alice"));
    assert_eq!(st.owner_of(&SID, &key(0xA1)), Some(2));
    assert_eq!(end(&mut st, 1, 20).len(), 0);
    assert_eq!(members(&st), vec![0xA1]);
    assert_eq!(st.registry.get(&SID).unwrap().participants[0].ygg_pubkey, key(2));
    end(&mut st, 2, 30);
    assert_eq!(members(&st), Vec::<u8>::new());
}

#[test]
fn only_what_is_made_has_a_timestamp() {
    let mut st = server_with_streams(1);
    let pk = key(1);
    assert!(keeps_timestamp(&st, &pk, CMD_CALL_CREATE, &create_body(0)));
    assert!(!keeps_timestamp(&st, &pk, CMD_CALL_CREATE, &create_body(1)));
    assert!(!keeps_timestamp(&st, &pk, CMD_CALL_CREATE, &[]));
    assert!(!keeps_timestamp(&st, &pk, CMD_HELLO, &[]));
    assert!(!keeps_timestamp(&st, &pk, CMD_CALL_JOIN, &join_body(1, "p")));
    frame(&mut st, 1, CMD_CALL_CREATE, create_body(0));
    assert!(keeps_timestamp(&st, &pk, CMD_CALL_JOIN, &join_body(1, "p")));
    assert!(!keeps_timestamp(&st, &pk, CMD_CALL_JOIN, &[]));
    assert!(!keeps_timestamp(&st, &pk, CMD_CALL_LEAVE, &leave_body()));
}

#[test]
fn streams_own_their_participants() {
    let mut st = server_with_streams(2);
    frame(&mut st, 1, CMD_CALL_CREATE, create_body(0));
    frame(&mut st, 1, CMD_CALL_JOIN, join_body(0xA1, "a"));
    frame(&mut st, 1, CMD_CALL_JOIN, join_body(0xA2, "b"));
    assert_eq!(owned_members(&st, 1, None), vec![(SID, key(0xA1)), (SID, key(0xA2))]);
    assert_eq!(owned_members(&st, 1, Some(SID)).len(), 2);
    assert_eq!(owned_members(&st, 1, Some([0; 16])), vec![]);
    assert_eq!(owned_members(&st, 2, None), vec![]);
}
