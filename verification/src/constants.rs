//! Protocol constants, command codes and limits.

use vstd::prelude::*;

verus! {

/// Wire protocol version.
pub const VERSION: u8 = 1;

/// The port that carries both the reliable control streams and the media
/// datagrams.
pub const SERVER_PORT: u16 = 70;

/// Key file for the mediator's Ed25519 identity key.
pub const KEY_FILE: &'static str = "call_mediator.key";

// Control-plane command codes (reliable stream).
/// client -> server: version probe
pub const CMD_HELLO: u8 = 0x01;

/// server -> client
pub const CMD_HELLO_ACK: u8 = 0x02;

/// client -> server
pub const CMD_CALL_CREATE: u8 = 0x10;

/// server -> client
pub const CMD_CALL_CREATE_ACK: u8 = 0x11;

/// client -> server
pub const CMD_CALL_JOIN: u8 = 0x12;

/// server -> client
pub const CMD_CALL_JOIN_ACK: u8 = 0x13;

/// client -> server
pub const CMD_CALL_LEAVE: u8 = 0x14;

/// server -> client, full participant list
pub const CMD_CALL_PARTICIPANT_UPDATE: u8 = 0x20;

/// server -> client, a single join or leave
pub const CMD_CALL_PARTICIPANT_EVENT: u8 = 0x21;

/// server -> client
pub const CMD_ERROR: u8 = 0x7F;

/// Media-plane datagram type byte (first byte of every datagram).
pub const DG_CALL_PACKET: u8 = 0x01;

// Response status.
pub const STATUS_OK: u8 = 0x00;

pub const STATUS_ERR: u8 = 0x01;

// Error codes.
pub const ERR_UNKNOWN_SESSION: u8 = 0x01;

pub const ERR_NOT_A_MEMBER: u8 = 0x02;

pub const ERR_SESSION_FULL: u8 = 0x03;

pub const ERR_BAD_SIGNATURE: u8 = 0x04;

pub const ERR_MODE_UNSUPPORTED: u8 = 0x05;

pub const ERR_MALFORMED: u8 = 0x06;

// Participant-event sub-types.
pub const EVT_JOINED: u8 = 0x01;

pub const EVT_LEFT: u8 = 0x02;

// Call session modes.
/// The server forwards ciphertext.
pub const MODE_SFU: u8 = 0x00;

/// The server decodes, mixes and re-encodes. Reserved on the wire.
pub const MODE_MCU: u8 = 0x01;

/// Bytes in a session id.
pub const SESSION_ID_LEN: usize = 16;

/// Bytes in an Ed25519 public key.
pub const PUBKEY_LEN: usize = 32;

// Limits.
/// Bytes in the UTF-8 form of a display name.
pub const MAX_DISPLAY_NAME_LEN: usize = 64;

/// Bytes in an AAC AudioSpecificConfig.
pub const MAX_ASC_LEN: usize = 64;

pub const MAX_PARTICIPANTS: usize = 16;

pub const MAX_CONTROL_FRAME: u32 = 65536;

pub const MAX_DATAGRAM: usize = 4096;

// Timers.
/// An empty session is dropped after this many seconds.
pub const EMPTY_SESSION_TTL_SECS: u64 = 300;

pub const SESSION_GC_INTERVAL_SECS: u64 = 30;

/// [`EMPTY_SESSION_TTL_SECS`] on the nanosecond scale of the monotonic clock.
pub const EMPTY_SESSION_TTL_NANOS: u64 = EMPTY_SESSION_TTL_SECS * 1_000_000_000;

} // verus!
