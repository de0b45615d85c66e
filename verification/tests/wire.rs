//! TLV payloads, control frames and datagrams.

use mimir_call_mediator::constants::{
    DG_CALL_PACKET, ERR_MALFORMED, EVT_JOINED, MAX_CONTROL_FRAME, MODE_SFU, SESSION_ID_LEN, VERSION,
};
use mimir_call_mediator::protocol::{
    build_create_ack, build_error, build_join_ack, build_participant_event,
    build_participant_update, encode_control_frame, parse_call_packet, read_control_frame,
    read_exact, write_call_packet_header, FrameReader, ParticipantView, DATAGRAM_HEADER_LEN,
};
use mimir_call_mediator::tlv::{
    build_tlv_payload, parse_tlvs, parse_tlvs_multi, read_varint_from_bytes, tlv_encode_bytes,
    tlv_encode_string, tlv_encode_u32, tlv_encode_u64, tlv_encode_u8, tlv_get_bytes,
    tlv_get_string, tlv_get_u32, tlv_get_u64, tlv_get_u8, write_tlv, write_varint, TlvError,
    TAG_AUDIO_CONFIG, TAG_CREATED_AT, TAG_DISPLAY_NAME, TAG_ERROR_CODE, TAG_ERROR_MSG,
    TAG_EVENT_TYPE, TAG_JOINED_AT, TAG_MODE, TAG_PARTICIPANT, TAG_PUBKEY, TAG_SAMPLE_RATE,
    TAG_SESSION_ID,
};

#[test]
fn tlv_roundtrip() {
    let mut buf = Vec::new();
    tlv_encode_u8(&mut buf, TAG_MODE, 0x01).unwrap();
    tlv_encode_string(&mut buf, TAG_DISPLAY_NAME, "alice").unwrap();
    tlv_encode_bytes(&mut buf, TAG_SESSION_ID, b"0123456789abcdef").unwrap();
    let m = parse_tlvs(&buf).unwrap();
    assert_eq!(tlv_get_u8(&m, TAG_MODE).unwrap(), 0x01);
    assert_eq!(tlv_get_string(&m, TAG_DISPLAY_NAME).unwrap(), "alice");
    assert_eq!(tlv_get_bytes(&m, TAG_SESSION_ID, 16).unwrap(), b"0123456789abcdef");
}

#[test]
fn datagram_roundtrip() {
    let sid = [7u8; SESSION_ID_LEN];
    let pk = [9u8; 32];
    let mut buf = Vec::new();
    write_call_packet_header(&mut buf, &sid, &pk, 12345);
    buf.extend_from_slice(b"AACPAYLOAD");
    let hdr = parse_call_packet(&buf).unwrap();
    assert_eq!(hdr.session_id, &sid);
    assert_eq!(hdr.from_pubkey, &pk);
    assert_eq!(hdr.seq, 12345);
    assert_eq!(hdr.payload, b"AACPAYLOAD");
}

#[test]
fn datagram_too_short() {
    assert!(parse_call_packet(&[0u8; 10]).is_err());
}

#[test]
fn datagram_wrong_type() {
    let mut buf = vec![0u8; DATAGRAM_HEADER_LEN];
    buf[0] = 0xEE;
    assert!(parse_call_packet(&buf).is_err());
}

#[test]
fn control_frame_encode_shape() {
    let body = b"abc";
    let f = encode_control_frame(0x42, body);
    assert_eq!(f[0], VERSION);
    assert_eq!(f[1], 0x42);
    assert_eq!(u32::from_be_bytes([f[2], f[3], f[4], f[5]]), 3);
    assert_eq!(&f[6..], body);
}

// ── Varints ──────────────────────────────────────────────────────────────

fn varint(v: u32) -> (Vec<u8>, Result<(), TlvError>) {
    let mut buf = Vec::new();
    let r = write_varint(&mut buf, v);
    (buf, r)
}

#[test]
fn varint_exact_bytes() {
    assert_eq!(varint(0), (vec![0x00], Ok(())));
    assert_eq!(varint(127), (vec![0x7F], Ok(())));
    assert_eq!(varint(128), (vec![0x80, 0x01], Ok(())));
    assert_eq!(varint(300), (vec![0xAC, 0x02], Ok(())));
    assert_eq!(varint(0x0FFF_FFFF), (vec![0xFF, 0xFF, 0xFF, 0x7F], Ok(())));
}

#[test]
fn varint_that_does_not_fit_leaves_four_bytes() {
    assert_eq!(
        varint(0x1000_0000),
        (vec![0x80, 0x80, 0x80, 0x80], Err(TlvError::VarintOverflow))
    );
    assert_eq!(varint(u32::MAX), (vec![0xFF; 4], Err(TlvError::VarintOverflow)));
}

#[test]
fn varint_reads_back_anywhere() {
    for v in [0u32, 1, 127, 128, 16_383, 16_384, 2_097_151, 2_097_152, 0x0FFF_FFFF] {
        let mut data = vec![0xAAu8, 0xBB];
        write_varint(&mut data, v).unwrap();
        let used = data.len() - 2;
        data.push(0xCC);
        assert_eq!(read_varint_from_bytes(&data, 2), Ok((v, used)));
    }
}

#[test]
fn varint_read_errors() {
    assert_eq!(read_varint_from_bytes(&[], 0), Err(TlvError::UnexpectedEnd));
    assert_eq!(read_varint_from_bytes(&[1], 7), Err(TlvError::UnexpectedEnd));
    assert_eq!(read_varint_from_bytes(&[0x80, 0x80], 0), Err(TlvError::UnexpectedEnd));
    assert_eq!(read_varint_from_bytes(&[0x80; 5], 0), Err(TlvError::VarintOverflow));
    // Not the shortest form, but a number all the same.
    assert_eq!(read_varint_from_bytes(&[0x81, 0x00], 0), Ok((1, 2)));
}

// ── Records ──────────────────────────────────────────────────────────────

#[test]
fn record_exact_bytes() {
    let mut buf = Vec::new();
    write_tlv(&mut buf, 0x04, b"hi").unwrap();
    write_tlv(&mut buf, 0x06, b"").unwrap();
    assert_eq!(buf, vec![0x04, 2, b'h', b'i', 0x06, 0]);
}

#[test]
fn value_of_more_than_28_bits_is_refused() {
    let value = vec![0u8; 1 << 28];
    let mut buf = Vec::new();
    assert_eq!(write_tlv(&mut buf, 0x04, &value), Err(TlvError::VarintOverflow));
    assert_eq!(buf, vec![0x04, 0x80, 0x80, 0x80, 0x80]);
    assert_eq!(
        tlv_encode_bytes(&mut Vec::new(), TAG_AUDIO_CONFIG, &value),
        Err(TlvError::VarintOverflow)
    );
}

#[test]
fn numbers_are_big_endian() {
    let mut buf = Vec::new();
    tlv_encode_u32(&mut buf, TAG_SAMPLE_RATE, 0x0102_0304).unwrap();
    tlv_encode_u64(&mut buf, TAG_CREATED_AT, 0x0102_0304_0506_0708).unwrap();
    assert_eq!(
        buf,
        vec![0x07, 4, 1, 2, 3, 4, 0x0D, 8, 1, 2, 3, 4, 5, 6, 7, 8]
    );
    let m = parse_tlvs(&buf).unwrap();
    assert_eq!(tlv_get_u32(&m, TAG_SAMPLE_RATE), Ok(0x0102_0304));
    assert_eq!(tlv_get_u64(&m, TAG_CREATED_AT), Ok(0x0102_0304_0506_0708));
}

#[test]
fn last_value_of_a_tag_counts() {
    let payload = [0x05u8, 1, 10, 0x04, 1, b'x', 0x05, 1, 20];
    let single = parse_tlvs(&payload).unwrap();
    assert_eq!(tlv_get_u8(&single, TAG_MODE), Ok(20));
    assert_eq!(single.len(), 2);
    let multi = parse_tlvs_multi(&payload).unwrap();
    assert_eq!(multi.get(&TAG_MODE), Some(&vec![vec![10u8], vec![20u8]]));
    assert_eq!(multi.get(&TAG_DISPLAY_NAME), Some(&vec![vec![b'x']]));
    assert_eq!(multi.get(&TAG_PUBKEY), None);
}

#[test]
fn empty_payload_has_no_records() {
    assert_eq!(parse_tlvs(&[]).unwrap().len(), 0);
    assert_eq!(parse_tlvs_multi(&[]).unwrap().len(), 0);
}

#[test]
fn payloads_join() {
    let a = [0x05u8, 1, 7];
    let b = [0x04u8, 2, b'o', b'k'];
    let joined: Vec<u8> = a.iter().chain(b.iter()).copied().collect();
    let m = parse_tlvs(&joined).unwrap();
    assert_eq!(tlv_get_u8(&m, TAG_MODE), Ok(7));
    assert_eq!(tlv_get_string(&m, TAG_DISPLAY_NAME), Ok("ok".to_string()));
}

#[test]
fn broken_payloads_are_refused() {
    assert_eq!(parse_tlvs(&[0x01]).err(), Some(TlvError::UnexpectedEnd));
    assert_eq!(
        parse_tlvs(&[0x01, 0x80, 0x80, 0x80, 0x80, 0x01]).err(),
        Some(TlvError::VarintOverflow)
    );
    let e = parse_tlvs(&[0x0A, 3, 1, 2]).err().unwrap();
    assert_eq!(e, TlvError::OutOfBounds { tag: 0x0A, length: 3 });
    assert_eq!(e.message(), "tag 0x0A length 3 exceeds payload bounds");
    assert_eq!(
        parse_tlvs_multi(&[0x0A, 3, 1, 2]).err(),
        Some(TlvError::OutOfBounds { tag: 0x0A, length: 3 })
    );
    assert_eq!(TlvError::UnexpectedEnd.message(), "varint: unexpected end");
    assert_eq!(TlvError::VarintOverflow.message(), "varint overflow");
}

#[test]
fn getters_say_what_is_wrong() {
    let m = parse_tlvs(&[0x01, 2, 9, 9, 0x04, 2, 0xC3, 0x28]).unwrap();
    assert_eq!(tlv_get_u8(&m, TAG_EVENT_TYPE), Err("missing tag 0x0A".to_string()));
    assert_eq!(tlv_get_string(&m, TAG_ERROR_MSG), Err("missing tag 0x0C".to_string()));
    assert_eq!(
        tlv_get_bytes(&m, TAG_SESSION_ID, 16),
        Err("tag 0x01: expected 16 bytes, got 2".to_string())
    );
    assert_eq!(tlv_get_bytes(&m, TAG_SESSION_ID, 0), Ok(&[9u8, 9][..]));
    assert_eq!(
        tlv_get_u32(&m, TAG_SESSION_ID),
        Err("tag 0x01: expected 4 bytes, got 2".to_string())
    );
    assert_eq!(
        tlv_get_u64(&m, TAG_SESSION_ID),
        Err("tag 0x01: expected 8 bytes, got 2".to_string())
    );
    assert_eq!(
        tlv_get_string(&m, TAG_DISPLAY_NAME),
        Err("tag 0x04: invalid utf8: invalid utf-8 sequence of 1 bytes from index 0".to_string())
    );
}

#[test]
fn text_reads_back() {
    let mut buf = Vec::new();
    tlv_encode_string(&mut buf, TAG_DISPLAY_NAME, "Zoë 🎧").unwrap();
    let m = parse_tlvs(&buf).unwrap();
    assert_eq!(tlv_get_string(&m, TAG_DISPLAY_NAME), Ok("Zoë 🎧".to_string()));
}

#[test]
fn payload_builder_hands_out_or_fails() {
    let ok = build_tlv_payload(|w| tlv_encode_u8(w, TAG_MODE, 3));
    assert_eq!(ok, Ok(vec![0x05, 1, 3]));
    let bad = build_tlv_payload(|w| {
        tlv_encode_u8(w, TAG_MODE, 3)?;
        write_varint(w, u32::MAX)
    });
    assert_eq!(bad, Err(TlvError::VarintOverflow));
}

// ── Control frames ───────────────────────────────────────────────────────

#[test]
fn frame_reads_back_however_it_is_cut() {
    let frame = encode_control_frame(0x12, b"0123456789");
    for step in 1..=frame.len() {
        let mut reader = FrameReader::new();
        let mut off = 0;
        let mut got = None;
        while got.is_none() {
            let n = step.min(reader.wanted());
            assert!(off + n <= frame.len());
            let chunk = frame[off..off + n].to_vec();
            off += n;
            got = read_control_frame(&mut reader, Ok(chunk)).unwrap();
        }
        assert_eq!(off, frame.len());
        assert_eq!(got, Some((0x12, b"0123456789".to_vec())));
        assert_eq!(reader.wanted(), 6);
    }
}

#[test]
fn frame_without_a_body() {
    let mut reader = FrameReader::new();
    let frame = encode_control_frame(0x01, b"");
    assert_eq!(frame, vec![1, 0x01, 0, 0, 0, 0]);
    assert_eq!(read_control_frame(&mut reader, Ok(frame)), Ok(Some((0x01, vec![]))));
}

#[test]
fn frame_errors() {
    let mut reader = FrameReader::new();
    assert_eq!(
        read_control_frame(&mut reader, Ok(vec![2, 1, 0, 0, 0, 0])),
        Err("bad version 2".to_string())
    );
    let mut reader = FrameReader::new();
    assert_eq!(
        read_control_frame(&mut reader, Ok(vec![1, 1, 0, 1, 0, 1])),
        Err("control frame too large: 65537".to_string())
    );
    let mut reader = FrameReader::new();
    assert_eq!(
        read_control_frame(&mut reader, Ok(vec![])),
        Err("connection closed".to_string())
    );
    let mut reader = FrameReader::new();
    assert_eq!(
        read_control_frame(&mut reader, Err("timeout".to_string())),
        Err("timeout".to_string())
    );
}

#[test]
fn largest_frame_is_taken() {
    let body = vec![0x5Au8; MAX_CONTROL_FRAME as usize];
    let frame = encode_control_frame(0x10, &body);
    let mut reader = FrameReader::new();
    assert_eq!(read_control_frame(&mut reader, Ok(frame[..6].to_vec())), Ok(None));
    assert_eq!(reader.wanted(), 65536);
    assert_eq!(
        read_control_frame(&mut reader, Ok(frame[6..].to_vec())),
        Ok(Some((0x10, body)))
    );
}

#[test]
fn reading_exactly() {
    let mut buf = Vec::new();
    assert_eq!(read_exact(&mut buf, 3, Ok(vec![1])), Ok(false));
    assert_eq!(read_exact(&mut buf, 3, Ok(vec![2, 3])), Ok(true));
    assert_eq!(buf, vec![1, 2, 3]);
    let mut buf = vec![1];
    assert_eq!(read_exact(&mut buf, 3, Ok(vec![])), Err("connection closed".to_string()));
    assert_eq!(read_exact(&mut buf, 3, Err("gone".to_string())), Err("gone".to_string()));
    assert_eq!(buf, vec![1]);
}

// ── Datagrams ────────────────────────────────────────────────────────────

#[test]
fn datagram_header_bytes() {
    let mut buf = vec![0xFF];
    write_call_packet_header(&mut buf, &[1; 16], &[2; 32], 0x0A0B_0C0D);
    assert_eq!(buf.len(), 1 + 54);
    assert_eq!(&buf[..3], &[0xFF, DG_CALL_PACKET, VERSION]);
    assert_eq!(&buf[3..19], &[1; 16]);
    assert_eq!(&buf[19..51], &[2; 32]);
    assert_eq!(&buf[51..], &[0x0A, 0x0B, 0x0C, 0x0D]);
}

#[test]
fn datagram_errors() {
    let mut buf = Vec::new();
    write_call_packet_header(&mut buf, &[1; 16], &[2; 32], 9);
    assert_eq!(parse_call_packet(&buf[..53]).err(), Some("datagram too short"));
    assert_eq!(parse_call_packet(&buf).ok().unwrap().payload.len(), 0);
    buf[1] = 9;
    assert_eq!(parse_call_packet(&buf).err(), Some("wrong version"));
    buf[0] = 9;
    assert_eq!(parse_call_packet(&buf).err(), Some("wrong datagram type"));
}

// ── Payloads of the server ───────────────────────────────────────────────

#[test]
fn error_payload() {
    let body = build_error(ERR_MALFORMED, "no");
    assert_eq!(body, vec![TAG_ERROR_CODE, 1, 6, TAG_ERROR_MSG, 2, b'n', b'o']);
    assert_eq!(build_error(3, ""), vec![TAG_ERROR_CODE, 1, 3]);
    let m = parse_tlvs(&body).unwrap();
    assert_eq!(tlv_get_u8(&m, TAG_ERROR_CODE), Ok(ERR_MALFORMED));
    assert_eq!(tlv_get_string(&m, TAG_ERROR_MSG), Ok("no".to_string()));
}

#[test]
fn acknowledgement_payloads() {
    let m = parse_tlvs(&build_create_ack(&[8; 16], MODE_SFU, 1_700_000_000)).unwrap();
    assert_eq!(tlv_get_bytes(&m, TAG_SESSION_ID, 16), Ok(&[8u8; 16][..]));
    assert_eq!(tlv_get_u8(&m, TAG_MODE), Ok(MODE_SFU));
    assert_eq!(tlv_get_u64(&m, TAG_CREATED_AT), Ok(1_700_000_000));
    let m = parse_tlvs(&build_create_ack(&[8; 16], MODE_SFU, -1)).unwrap();
    assert_eq!(tlv_get_u64(&m, TAG_CREATED_AT), Ok(u64::MAX));
    let mut expected = vec![TAG_SESSION_ID, 16];
    expected.extend_from_slice(&[8; 16]);
    expected.extend_from_slice(&[TAG_MODE, 1, 1]);
    assert_eq!(build_join_ack(&[8; 16], 1), expected);
}

#[test]
fn event_payload() {
    let m = parse_tlvs(&build_participant_event(&[3; 16], EVT_JOINED, &[4; 32], "bob")).unwrap();
    assert_eq!(tlv_get_bytes(&m, TAG_SESSION_ID, 16), Ok(&[3u8; 16][..]));
    assert_eq!(tlv_get_u8(&m, TAG_EVENT_TYPE), Ok(EVT_JOINED));
    assert_eq!(tlv_get_bytes(&m, TAG_PUBKEY, 32), Ok(&[4u8; 32][..]));
    assert_eq!(tlv_get_string(&m, TAG_DISPLAY_NAME), Ok("bob".to_string()));
}

#[test]
fn list_payload_keeps_the_order() {
    let (a, b) = ([1u8; 32], [2u8; 32]);
    let views = [
        ParticipantView {
            pubkey: &a,
            display_name: "a",
            audio_config: &[0x12, 0x10],
            joined_at: 5,
        },
        ParticipantView { pubkey: &b, display_name: "b", audio_config: &[], joined_at: 6 },
    ];
    let m = parse_tlvs_multi(&build_participant_update(&[7; 16], &views)).unwrap();
    assert_eq!(m.get(&TAG_SESSION_ID), Some(&vec![vec![7u8; 16]]));
    let nested = m.get(&TAG_PARTICIPANT).unwrap();
    assert_eq!(nested.len(), 2);
    let first = parse_tlvs(&nested[0]).unwrap();
    assert_eq!(tlv_get_bytes(&first, TAG_PUBKEY, 32), Ok(&a[..]));
    assert_eq!(tlv_get_string(&first, TAG_DISPLAY_NAME), Ok("a".to_string()));
    assert_eq!(tlv_get_bytes(&first, TAG_AUDIO_CONFIG, 0), Ok(&[0x12u8, 0x10][..]));
    assert_eq!(tlv_get_u64(&first, TAG_JOINED_AT), Ok(5));
    let second = parse_tlvs(&nested[1]).unwrap();
    assert_eq!(tlv_get_bytes(&second, TAG_PUBKEY, 32), Ok(&b[..]));
    assert!(tlv_get_bytes(&second, TAG_AUDIO_CONFIG, 0).is_err());
}

#[test]
fn list_payload_of_an_empty_session() {
    let mut expected = vec![TAG_SESSION_ID, 16];
    expected.extend_from_slice(&[7; 16]);
    assert_eq!(build_participant_update(&[7; 16], &[]), expected);
}
