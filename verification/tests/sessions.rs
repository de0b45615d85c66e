//! Sessions and their registry.

use mimir_call_mediator::constants::{
    EMPTY_SESSION_TTL_NANOS, EMPTY_SESSION_TTL_SECS, ERR_MODE_UNSUPPORTED, ERR_SESSION_FULL,
    ERR_UNKNOWN_SESSION, MAX_PARTICIPANTS, MODE_MCU, MODE_SFU,
};
use mimir_call_mediator::session::{
    generate_session_id, now_unix, to_timestamp, CallMode, CallSession, Clock, Participant,
    SessionRegistry,
};

fn at(seconds: u64) -> Clock {
    Clock { unix: 1_700_000_000 + seconds as i64, monotonic: seconds * 1_000_000_000 }
}

fn participant(n: u8) -> Participant {
    Participant {
        pubkey: [n; 32],
        ygg_pubkey: [n + 100; 32],
        display_name: format!("p{}", n),
        audio_config: vec![],
        joined_at: 0,
        control_id: n as u64,
    }
}

#[test]
fn modes_and_bytes() {
    assert_eq!(CallMode::from_wire(MODE_SFU), Some(CallMode::Sfu));
    assert_eq!(CallMode::from_wire(MODE_MCU), Some(CallMode::Mcu));
    assert_eq!(CallMode::from_wire(2), None);
    for m in [CallMode::Sfu, CallMode::Mcu] {
        assert_eq!(CallMode::from_wire(m.to_wire()), Some(m));
    }
}

#[test]
fn new_session_is_empty() {
    let s = CallSession::new([1; 16], CallMode::Sfu, at(7));
    assert_eq!(s.id, [1; 16]);
    assert_eq!(s.created_at, 1_700_000_007);
    assert_eq!(s.participants.len(), 0);
    assert_eq!(s.empty_since, Some(7_000_000_000));
}

#[test]
fn created_session_is_found() {
    let mut r = SessionRegistry::new();
    assert!(!r.mcu_enabled);
    let a = r.create(CallMode::Sfu, at(0)).unwrap();
    let b = r.create(CallMode::Sfu, at(1)).unwrap();
    assert_ne!(a, b);
    assert_eq!(r.get(&a).unwrap().id, a);
    assert_eq!(r.get(&b).unwrap().created_at, 1_700_000_001);
    assert!(r.get(&[0; 16]).is_none());
}

#[test]
fn mcu_needs_to_be_enabled() {
    let mut r = SessionRegistry::new();
    assert_eq!(r.create(CallMode::Mcu, at(0)), Err(ERR_MODE_UNSUPPORTED));
    assert_eq!(r.create_with_id([1; 16], CallMode::Mcu, at(0)), Err(ERR_MODE_UNSUPPORTED));
    assert!(r.get(&[1; 16]).is_none());
    r.mcu_enabled = true;
    assert_eq!(r.create_with_id([1; 16], CallMode::Mcu, at(0)), Ok(()));
    assert_eq!(r.get(&[1; 16]).unwrap().mode, CallMode::Mcu);
}

#[test]
fn session_under_a_used_id_replaces_the_old_one() {
    let mut r = SessionRegistry::new();
    r.create_with_id([1; 16], CallMode::Sfu, at(0)).unwrap();
    r.add_participant(&[1; 16], participant(1)).unwrap();
    r.create_with_id([1; 16], CallMode::Sfu, at(9)).unwrap();
    let s = r.get(&[1; 16]).unwrap();
    assert_eq!(s.participants.len(), 0);
    assert_eq!(s.created_at, 1_700_000_009);
}

#[test]
fn removed_session_is_gone() {
    let mut r = SessionRegistry::new();
    r.create_with_id([1; 16], CallMode::Sfu, at(0)).unwrap();
    r.create_with_id([2; 16], CallMode::Sfu, at(0)).unwrap();
    assert!(r.remove(&[1; 16]));
    assert!(!r.remove(&[1; 16]));
    assert!(r.get(&[1; 16]).is_none());
    assert!(r.get(&[2; 16]).is_some());
}

#[test]
fn participants_come_and_go() {
    let mut r = SessionRegistry::new();
    r.create_with_id([1; 16], CallMode::Sfu, at(0)).unwrap();
    assert_eq!(r.add_participant(&[1; 16], participant(1)), Ok(CallMode::Sfu));
    assert_eq!(r.add_participant(&[1; 16], participant(2)), Ok(CallMode::Sfu));
    assert_eq!(r.get(&[1; 16]).unwrap().empty_since, None);
    let mut again = participant(1);
    again.control_id = 50;
    assert_eq!(r.add_participant(&[1; 16], again), Ok(CallMode::Sfu));
    let order: Vec<u8> =
        r.get(&[1; 16]).unwrap().participants.iter().map(|p| p.pubkey[0]).collect();
    assert_eq!(order, vec![1, 2]);
    assert_eq!(r.get(&[1; 16]).unwrap().participants[0].control_id, 50);
    assert_eq!(r.remove_participant(&[1; 16], &[1; 32], 5), Some("p1".to_string()));
    assert_eq!(r.remove_participant(&[1; 16], &[1; 32], 6), None);
    assert_eq!(r.get(&[1; 16]).unwrap().empty_since, None);
    assert_eq!(r.remove_participant(&[1; 16], &[2; 32], 7), Some("p2".to_string()));
    assert_eq!(r.get(&[1; 16]).unwrap().empty_since, Some(7));
    assert_eq!(r.remove_participant(&[9; 16], &[2; 32], 8), None);
}

#[test]
fn joining_can_be_refused() {
    let mut r = SessionRegistry::new();
    assert_eq!(r.add_participant(&[1; 16], participant(1)), Err(ERR_UNKNOWN_SESSION));
    r.create_with_id([1; 16], CallMode::Sfu, at(0)).unwrap();
    for n in 0..MAX_PARTICIPANTS as u8 {
        assert_eq!(r.add_participant(&[1; 16], participant(n)), Ok(CallMode::Sfu));
    }
    assert_eq!(r.add_participant(&[1; 16], participant(99)), Err(ERR_SESSION_FULL));
    assert_eq!(r.add_participant(&[1; 16], participant(3)), Ok(CallMode::Sfu));
    assert_eq!(r.get(&[1; 16]).unwrap().participants.len(), 16);
}

#[test]
fn stale_sessions_are_collected() {
    assert_eq!(EMPTY_SESSION_TTL_NANOS, EMPTY_SESSION_TTL_SECS * 1_000_000_000);
    let mut r = SessionRegistry::new();
    r.create_with_id([1; 16], CallMode::Sfu, at(0)).unwrap();
    r.create_with_id([2; 16], CallMode::Sfu, at(0)).unwrap();
    r.create_with_id([3; 16], CallMode::Sfu, at(100)).unwrap();
    r.add_participant(&[2; 16], participant(1)).unwrap();
    assert_eq!(r.gc_empty(EMPTY_SESSION_TTL_NANOS - 1), Vec::<[u8; 16]>::new());
    assert_eq!(r.gc_empty(EMPTY_SESSION_TTL_NANOS), vec![[1; 16]]);
    assert!(r.get(&[1; 16]).is_none());
    assert!(r.get(&[2; 16]).is_some());
    assert!(r.get(&[3; 16]).is_some());
    assert_eq!(r.gc_empty(u64::MAX), vec![[3; 16]]);
    assert!(r.get(&[2; 16]).is_some());
}

#[test]
fn session_ids_are_random() {
    assert_ne!(generate_session_id(), generate_session_id());
}

#[test]
fn clock_reads_seconds() {
    let now = now_unix().unwrap();
    assert!(now > 1_600_000_000);
    assert!(now_unix().unwrap() - now <= 5);
    assert_eq!(to_timestamp(Some(7)), Some(7));
    assert_eq!(to_timestamp(None), None);
}
