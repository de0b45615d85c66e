//! The way of a datagram.

use mimir_call_mediator::constants::MAX_DATAGRAM;
use mimir_call_mediator::media::{
    handle_call_packet, receive_datagram, should_log, DatagramKind, MediaCounters, MediaOutcome,
};
use mimir_call_mediator::protocol::write_call_packet_header;
use mimir_call_mediator::server::ServerState;
use mimir_call_mediator::session::{CallMode, Clock, Participant, SessionRegistry};

/// A server with the session 1, of the given mode and members. The routing key
/// of a member is that of its identity plus one hundred.
fn server_with(mode: CallMode, members: &[u8]) -> ServerState {
    let mut registry = SessionRegistry::new();
    registry.mcu_enabled = true;
    registry.create_with_id([1; 16], mode, Clock { unix: 0, monotonic: 0 }).unwrap();
    for n in members {
        let p = Participant {
            pubkey: [*n; 32],
            ygg_pubkey: [n + 100; 32],
            display_name: String::new(),
            audio_config: vec![],
            joined_at: 0,
            control_id: 1,
        };
        registry.add_participant(&[1; 16], p).unwrap();
    }
    ServerState::new([0; 32], registry)
}

fn packet(session: u8, from: u8) -> Vec<u8> {
    let mut buf = Vec::new();
    write_call_packet_header(&mut buf, &[session; 16], &[from; 32], 1);
    buf.extend_from_slice(b"audio");
    buf
}

fn targets(outcome: &MediaOutcome) -> Vec<(u8, u8)> {
    match outcome {
        MediaOutcome::Forward(out) => out.iter().map(|o| (o.identity[0], o.to[0])).collect(),
        other => panic!("not forwarded: {:?}", other),
    }
}

#[test]
fn first_and_every_hundredth_are_logged() {
    let mut counter = 0u64;
    let logged: Vec<u64> = (0..250)
        .map(|_| should_log(&mut counter))
        .filter(|(log, _)| *log)
        .map(|(_, n)| n)
        .collect();
    assert_eq!(logged, vec![1, 100, 200]);
    assert_eq!(counter, 250);
    let mut counter = u64::MAX;
    assert_eq!(should_log(&mut counter), (true, 0));
}

#[test]
fn packet_goes_to_the_others() {
    let st = server_with(CallMode::Sfu, &[5, 6, 7]);
    let mut c = MediaCounters::new();
    let step = handle_call_packet(&st, &mut c, &packet(1, 6));
    assert_eq!(targets(&step.outcome), vec![(5, 105), (7, 107)]);
    assert_eq!(step.rx, (true, 1));
    assert_eq!(step.note, (true, 1));
    let step = handle_call_packet(&st, &mut c, &packet(1, 5));
    assert_eq!(targets(&step.outcome), vec![(6, 106), (7, 107)]);
    assert_eq!(step.note, (false, 2));
    assert_eq!((c.rx, c.forward, c.no_targets), (2, 2, 0));
}

#[test]
fn forwarded_datagram_is_unchanged() {
    let st = server_with(CallMode::Sfu, &[5, 6, 7]);
    let mut c = MediaCounters::new();
    let sent = packet(1, 7);
    match handle_call_packet(&st, &mut c, &sent).outcome {
        MediaOutcome::Forward(out) => {
            assert_eq!(out.len(), 2);
            assert!(out.iter().all(|o| o.data == sent));
        }
        other => panic!("not forwarded: {:?}", other),
    }
}

#[test]
fn lone_member_has_no_targets() {
    let st = server_with(CallMode::Sfu, &[5]);
    let mut c = MediaCounters::new();
    let step = handle_call_packet(&st, &mut c, &packet(1, 5));
    assert!(matches!(step.outcome, MediaOutcome::NoTargets));
    assert_eq!(c.no_targets, 1);
}

#[test]
fn outsider_is_dropped() {
    let st = server_with(CallMode::Sfu, &[5, 6]);
    let mut c = MediaCounters::new();
    let step = handle_call_packet(&st, &mut c, &packet(1, 9));
    assert!(matches!(step.outcome, MediaOutcome::NotMember));
    let step = handle_call_packet(&st, &mut c, &packet(2, 5));
    assert!(matches!(step.outcome, MediaOutcome::UnknownSession));
    let step = handle_call_packet(&st, &mut c, &packet(1, 5)[..20]);
    assert!(matches!(step.outcome, MediaOutcome::ParseFail("datagram too short")));
    assert_eq!((c.rx, c.not_member, c.unknown_session, c.parse_fail), (3, 1, 1, 1));
}

#[test]
fn mixed_session_is_not_forwarded() {
    let st = server_with(CallMode::Mcu, &[5, 6]);
    let mut c = MediaCounters::new();
    let step = handle_call_packet(&st, &mut c, &packet(1, 5));
    assert!(matches!(step.outcome, MediaOutcome::Mcu));
    let step = handle_call_packet(&st, &mut c, &packet(1, 9));
    assert!(matches!(step.outcome, MediaOutcome::NotMember));
    assert_eq!((c.mcu, c.forward, c.not_member), (1, 0, 1));
}

#[test]
fn datagrams_are_sorted() {
    let st = server_with(CallMode::Sfu, &[5, 6]);
    let mut c = MediaCounters::new();
    let step = receive_datagram(&st, &mut c, &[]);
    assert!(matches!(step.kind, DatagramKind::Empty));
    assert_eq!((step.total, step.milestone), (1, false));
    let step = receive_datagram(&st, &mut c, &vec![1u8; MAX_DATAGRAM + 1]);
    assert!(matches!(step.kind, DatagramKind::Oversized((true, 1))));
    let step = receive_datagram(&st, &mut c, &[9, 9]);
    assert!(matches!(step.kind, DatagramKind::UnknownType((true, 1))));
    let step = receive_datagram(&st, &mut c, &[9, 9]);
    assert!(matches!(step.kind, DatagramKind::UnknownType((false, 2))));
    let step = receive_datagram(&st, &mut c, &packet(1, 5));
    match step.kind {
        DatagramKind::CallPacket(p) => assert_eq!(targets(&p.outcome), vec![(6, 106)]),
        other => panic!("not a call packet: {:?}", other),
    }
    assert_eq!((c.total, c.oversized, c.unknown_type, c.rx), (5, 1, 2, 1));
}

#[test]
fn largest_datagram_is_taken() {
    let st = server_with(CallMode::Sfu, &[5, 6]);
    let mut c = MediaCounters::new();
    let mut data = packet(1, 5);
    data.resize(MAX_DATAGRAM, 0);
    let step = receive_datagram(&st, &mut c, &data);
    assert!(matches!(step.kind, DatagramKind::CallPacket(_)));
}

#[test]
fn every_five_hundredth_is_a_milestone() {
    let st = server_with(CallMode::Sfu, &[]);
    let mut c = MediaCounters::new();
    let marks: Vec<u64> = (0..1001)
        .map(|_| receive_datagram(&st, &mut c, &[]))
        .filter(|s| s.milestone)
        .map(|s| s.total)
        .collect();
    assert_eq!(marks, vec![500, 1000]);
}
