//! Wire format of the call mediator.
//!
//! Control frames (over a reliable stream):
//!
//! ```text
//! [u8 version][u8 cmd][u32 be length][TLV payload ...]
//! ```
//!
//! Datagrams:
//!
//! ```text
//! [u8 type][u8 version][session_id 16][from_pubkey 32][u32 be seq][payload...]
//! ```

use vstd::prelude::*;
use vstd::slice::*;
use vstd::string::*;
use vstd::utf8::*;

use crate::bytes::{self, append_bytes, as_array, be_uint, u32_be};
use crate::constants::{
    DG_CALL_PACKET, MAX_ASC_LEN, MAX_CONTROL_FRAME, MAX_DISPLAY_NAME_LEN, PUBKEY_LEN,
    SESSION_ID_LEN, VERSION,
};
use crate::text::{self, push_decimal};
use crate::tlv::{
    self, build_tlv_payload, tlv_encode_bytes, tlv_encode_string, tlv_encode_u64, tlv_encode_u8,
    TlvError, TAG_AUDIO_CONFIG, TAG_CREATED_AT, TAG_DISPLAY_NAME, TAG_ERROR_CODE, TAG_ERROR_MSG,
    TAG_EVENT_TYPE, TAG_JOINED_AT, TAG_MODE, TAG_PARTICIPANT, TAG_PUBKEY, TAG_SESSION_ID,
};

verus! {

/// Type, version, session id, public key and sequence number.
pub const DATAGRAM_HEADER_LEN: usize = 1 + 1 + SESSION_ID_LEN + PUBKEY_LEN + 4;

/// Version, command and length.
pub const FRAME_HEADER_LEN: usize = 6;

// ── Reliable control-stream framing ──────────────────────────────────────

/// One step of reading exactly `total` bytes into `buf`: takes in what one read
/// of the stream gave, and says whether `buf` is now full. A read that gives
/// nothing means that the peer closed the stream.
pub fn read_exact(buf: &mut Vec<u8>, total: usize, read: Result<Vec<u8>, String>) -> (r: Result<
    bool,
    String,
>)
    requires
        old(buf)@.len() < total,
        read matches Ok(chunk) ==> old(buf)@.len() + chunk@.len() <= total,
    ensures
        match read {
            Err(e) => r is Err && r->Err_0@ == e@ && final(buf)@ == old(buf)@,
            Ok(chunk) => if chunk@.len() == 0 {
                r is Err && r->Err_0@ == "connection closed"@ && final(buf)@ == old(buf)@
            } else {
                &&& final(buf)@ == old(buf)@ + chunk@
                &&& r is Ok
                &&& r->Ok_0 == (final(buf)@.len() == total)
            },
        },
{
    match read {
        Err(e) => Err(e),
        Ok(chunk) => {
            if chunk.len() == 0 {
                return Err("connection closed".to_owned());
            }
            append_bytes(buf, chunk.as_slice());
            Ok(buf.len() == total)
        },
    }
}

/// What the bytes of a frame that have come so far amount to.
pub enum FrameStatus {
    /// This many bytes more, at least, are to come.
    More(nat),
    /// No frame starts like this.
    Bad(Seq<char>),
    /// A whole frame: the command and the body.
    Done(u8, Seq<u8>),
}

/// Reads the bytes of a frame that have come so far.
pub open spec fn frame_status(s: Seq<u8>) -> FrameStatus {
    if s.len() < FRAME_HEADER_LEN {
        FrameStatus::More((FRAME_HEADER_LEN - s.len()) as nat)
    } else if s[0] != VERSION {
        FrameStatus::Bad("bad version "@ + text::decimal(s[0] as nat))
    } else {
        let n = bytes::be_value(s.subrange(2, 6));
        let end = FRAME_HEADER_LEN + n;
        if n > MAX_CONTROL_FRAME {
            FrameStatus::Bad("control frame too large: "@ + text::decimal(n))
        } else if s.len() < end {
            FrameStatus::More((end - s.len()) as nat)
        } else {
            FrameStatus::Done(s[1], s.subrange(FRAME_HEADER_LEN as int, end))
        }
    }
}

/// Puts control frames together out of the reads of one stream.
pub struct FrameReader {
    held: Vec<u8>,
}

impl View for FrameReader {
    type V = Seq<u8>;

    /// The bytes of the current frame that have come so far.
    closed spec fn view(&self) -> Seq<u8> {
        self.held@
    }
}

impl FrameReader {
    /// Between two reads the current frame is not complete.
    pub open spec fn wf(&self) -> bool {
        frame_status(self@) is More
    }

    /// A reader at the start of a frame.
    pub fn new() -> (r: Self)
        ensures
            r.wf(),
            r@ == Seq::<u8>::empty(),
    {
        FrameReader { held: Vec::new() }
    }

    /// The length that the frame is known to have so far.
    fn total(&self) -> (r: usize)
        requires
            self.wf(),
        ensures
            self@.len() < r,
            frame_status(self@) == FrameStatus::More((r - self@.len()) as nat),
            self@.len() < FRAME_HEADER_LEN ==> r == FRAME_HEADER_LEN,
            self@.len() >= FRAME_HEADER_LEN ==> r == FRAME_HEADER_LEN + bytes::be_value(
                self@.subrange(2, 6),
            ),
    {
        if self.held.len() < FRAME_HEADER_LEN {
            FRAME_HEADER_LEN
        } else {
            let n: u64 = be_uint(slice_subrange(self.held.as_slice(), 2, 6));
            FRAME_HEADER_LEN + n as usize
        }
    }

    /// How many bytes the next read may give at most.
    pub fn wanted(&self) -> (r: usize)
        requires
            self.wf(),
        ensures
            frame_status(self@) == FrameStatus::More(r as nat),
            r > 0,
    {
        self.total() - self.held.len()
    }
}

/// One step of reading a control frame: takes in what one read of the stream
/// gave. Gives the command and the body once the frame is complete; the reader
/// is then at the start of the next frame.
pub fn read_control_frame(reader: &mut FrameReader, read: Result<Vec<u8>, String>) -> (r: Result<
    Option<(u8, Vec<u8>)>,
    String,
>)
    requires
        old(reader).wf(),
        read matches Ok(chunk) ==> chunk@.len() <= frame_status(old(reader)@)->More_0,
    ensures
        final(reader).wf(),
        match read {
            Err(e) => r is Err && r->Err_0@ == e@ && final(reader)@ == old(reader)@,
            Ok(chunk) => if chunk@.len() == 0 {
                r is Err && r->Err_0@ == "connection closed"@ && final(reader)@ == old(reader)@
            } else {
                match frame_status(old(reader)@ + chunk@) {
                    FrameStatus::More(_) => r is Ok && r->Ok_0 is None && final(reader)@ == old(
                        reader,
                    )@ + chunk@,
                    FrameStatus::Bad(text) => r is Err && r->Err_0@ == text && final(reader)@
                        == Seq::<u8>::empty(),
                    FrameStatus::Done(cmd, body) => {
                        &&& r is Ok
                        &&& r->Ok_0 is Some
                        &&& r->Ok_0->Some_0.0 == cmd
                        &&& r->Ok_0->Some_0.1@ == body
                        &&& final(reader)@ == Seq::<u8>::empty()
                    },
                }
            },
        },
{
    let total: usize = reader.total();
    let ghost before = reader@;
    let full: bool = match read_exact(&mut reader.held, total, read) {
        Ok(full) => full,
        Err(e) => {
            return Err(e);
        },
    };
    let ghost now = reader@;
    proof {
        if before.len() >= FRAME_HEADER_LEN {
            assert(now.subrange(2, 6) =~= before.subrange(2, 6));
        }
    }
    if !full {
        return Ok(None);
    }
    let version: u8 = reader.held[0];
    let cmd: u8 = reader.held[1];
    if version != VERSION {
        let mut s: String = "bad version ".to_owned();
        push_decimal(&mut s, version as u64);
        reader.held = Vec::new();
        return Err(s);
    }
    let n: u64 = be_uint(slice_subrange(reader.held.as_slice(), 2, 6));
    if n > MAX_CONTROL_FRAME as u64 {
        let mut s: String = "control frame too large: ".to_owned();
        push_decimal(&mut s, n);
        reader.held = Vec::new();
        return Err(s);
    }
    if total < FRAME_HEADER_LEN + n as usize {
        return Ok(None);
    }
    let body: Vec<u8> = slice_to_vec(
        slice_subrange(reader.held.as_slice(), FRAME_HEADER_LEN, total),
    );
    reader.held = Vec::new();
    Ok(Some((cmd, body)))
}

/// The bytes of a control frame. The length of a body that is longer than its
/// field can say is cut down to the last 32 bits.
pub open spec fn frame_bytes(cmd: u8, body: Seq<u8>) -> Seq<u8> {
    seq![VERSION, cmd] + bytes::be_bytes(body.len(), 4) + body
}

/// Frames a control message for the stream.
pub fn encode_control_frame(cmd: u8, body: &[u8]) -> (r: Vec<u8>)
    ensures
        r@ == frame_bytes(cmd, body@),
{
    let mut buf: Vec<u8> = Vec::new();
    buf.push(VERSION);
    buf.push(cmd);
    let n: u64 = body.len() as u64;
    let length: u32 = #[verifier::truncate]
    (n as u32);
    proof {
        assert(n as u32 == n % 0x1_0000_0000) by (bit_vector);
        bytes::lemma_be_bytes_last(n as nat);
    }
    append_bytes(&mut buf, &u32_be(length));
    append_bytes(&mut buf, body);
    assert(buf@ =~= frame_bytes(cmd, body@));
    buf
}

// ── Datagram framing ─────────────────────────────────────────────────────

/// A media datagram, taken apart.
pub struct CallPacketHeader<'a> {
    pub session_id: &'a [u8; SESSION_ID_LEN],
    pub from_pubkey: &'a [u8; PUBKEY_LEN],
    pub seq: u32,
    pub payload: &'a [u8],
}

/// What is wrong with a datagram.
pub open spec fn packet_error(buf: Seq<u8>) -> Option<Seq<char>> {
    if buf.len() < DATAGRAM_HEADER_LEN {
        Some("datagram too short"@)
    } else if buf[0] != DG_CALL_PACKET {
        Some("wrong datagram type"@)
    } else if buf[1] != VERSION {
        Some("wrong version"@)
    } else {
        None
    }
}

/// The session that a datagram names.
pub open spec fn packet_session(buf: Seq<u8>) -> Seq<u8> {
    buf.subrange(2, 18)
}

/// The sender that a datagram names.
pub open spec fn packet_sender(buf: Seq<u8>) -> Seq<u8> {
    buf.subrange(18, 50)
}

/// The sequence number of a datagram.
pub open spec fn packet_seq(buf: Seq<u8>) -> nat {
    bytes::be_value(buf.subrange(50, 54))
}

/// Takes a media datagram apart.
pub fn parse_call_packet(buf: &[u8]) -> (r: Result<CallPacketHeader<'_>, &'static str>)
    ensures
        match r {
            Ok(h) => {
                &&& packet_error(buf@) is None
                &&& h.session_id@ == packet_session(buf@)
                &&& h.from_pubkey@ == packet_sender(buf@)
                &&& h.seq == packet_seq(buf@)
                &&& h.payload@ == buf@.skip(DATAGRAM_HEADER_LEN as int)
            },
            Err(e) => packet_error(buf@) == Some(e@),
        },
{
    if buf.len() < DATAGRAM_HEADER_LEN {
        return Err("datagram too short");
    }
    if buf[0] != DG_CALL_PACKET {
        return Err("wrong datagram type");
    }
    if buf[1] != VERSION {
        return Err("wrong version");
    }
    let pk_start: usize = 2 + SESSION_ID_LEN;
    let seq_start: usize = pk_start + PUBKEY_LEN;
    let session_id: &[u8; SESSION_ID_LEN] = as_array(slice_subrange(buf, 2, pk_start));
    let from_pubkey: &[u8; PUBKEY_LEN] = as_array(slice_subrange(buf, pk_start, seq_start));
    let seq_bytes: &[u8] = slice_subrange(buf, seq_start, DATAGRAM_HEADER_LEN);
    proof {
        bytes::be_roundtrip_back(seq_bytes@);
        reveal_with_fuel(bytes::pow256, 5);
    }
    let seq: u32 = be_uint(seq_bytes) as u32;
    let payload: &[u8] = slice_subrange(buf, DATAGRAM_HEADER_LEN, buf.len());
    Ok(CallPacketHeader { session_id, from_pubkey, seq, payload })
}

/// The header of a media datagram.
pub open spec fn packet_header(session_id: Seq<u8>, from_pubkey: Seq<u8>, seq: nat) -> Seq<u8> {
    seq![DG_CALL_PACKET, VERSION] + session_id + from_pubkey + bytes::be_bytes(seq, 4)
}

/// Appends the header of a media datagram.
pub fn write_call_packet_header(
    out: &mut Vec<u8>,
    session_id: &[u8; SESSION_ID_LEN],
    from_pubkey: &[u8; PUBKEY_LEN],
    seq: u32,
)
    ensures
        final(out)@ == old(out)@ + packet_header(session_id@, from_pubkey@, seq as nat),
{
    out.push(DG_CALL_PACKET);
    out.push(VERSION);
    append_bytes(out, session_id);
    append_bytes(out, from_pubkey);
    append_bytes(out, &u32_be(seq));
    assert(out@ =~= old(out)@ + packet_header(session_id@, from_pubkey@, seq as nat));
}

// ── Typed control payload builders (server side) ─────────────────────────

/// A timestamp as it goes over the wire.
pub open spec fn time_bytes(t: i64) -> Seq<u8> {
    bytes::be_bytes((t as u64) as nat, 8)
}

/// The records of an error.
pub open spec fn error_records(code: u8, msg: Seq<char>) -> Seq<tlv::Record> {
    let head = Seq::<tlv::Record>::empty().push((TAG_ERROR_CODE, seq![code]));
    if msg.len() == 0 {
        head
    } else {
        head.push((TAG_ERROR_MSG, encode_utf8(msg)))
    }
}

/// The payload of an error. An empty message is left out.
pub fn build_error(code: u8, msg: &str) -> (r: Vec<u8>)
    ensures
        r@ == tlv::payload(error_records(code, msg@)),
{
    let ghost records = error_records(code, msg@);
    let build = |w: &mut Vec<u8>| -> (o: Result<(), TlvError>)
        requires
            w@.len() == 0,
        ensures
            o is Ok <==> tlv::all_writable(records),
            o is Ok ==> final(w)@ == tlv::encode_records(records),
        {
            let ghost mut done: Seq<tlv::Record> = Seq::empty();
            proof {
                tlv::lemma_encode_push(done, (TAG_ERROR_CODE, seq![code]));
                done = done.push((TAG_ERROR_CODE, seq![code]));
            }
            tlv_encode_u8(w, TAG_ERROR_CODE, code)?;
            assert(w@ =~= tlv::encode_records(done));
            if !msg.is_empty() {
                proof {
                    tlv::lemma_encode_push(done, (TAG_ERROR_MSG, encode_utf8(msg@)));
                }
                tlv_encode_string(w, TAG_ERROR_MSG, msg)?;
            }
            Ok(())
        };
    match build_tlv_payload(build) {
        Ok(v) => v,
        Err(_) => Vec::new(),
    }
}

/// The records of the answer to a create request.
pub open spec fn create_ack_records(session_id: Seq<u8>, mode: u8, created_at: i64) -> Seq<
    tlv::Record,
> {
    Seq::<tlv::Record>::empty().push((TAG_SESSION_ID, session_id)).push(
        (TAG_MODE, seq![mode]),
    ).push((TAG_CREATED_AT, time_bytes(created_at)))
}

/// The payload of the answer to a create request.
pub fn build_create_ack(session_id: &[u8; SESSION_ID_LEN], mode: u8, created_at: i64) -> (r: Vec<
    u8,
>)
    ensures
        r@ == tlv::encode_records(create_ack_records(session_id@, mode, created_at)),
{
    let ghost records = create_ack_records(session_id@, mode, created_at);
    let build = |w: &mut Vec<u8>| -> (o: Result<(), TlvError>)
        requires
            w@.len() == 0,
        ensures
            o is Ok,
            final(w)@ == tlv::encode_records(records),
        {
            let ghost first = Seq::<tlv::Record>::empty().push((TAG_SESSION_ID, session_id@));
            let ghost second = first.push((TAG_MODE, seq![mode]));
            proof {
                tlv::lemma_encode_push(Seq::empty(), (TAG_SESSION_ID, session_id@));
                tlv::lemma_encode_push(first, (TAG_MODE, seq![mode]));
                tlv::lemma_encode_push(second, (TAG_CREATED_AT, time_bytes(created_at)));
            }
            tlv_encode_bytes(w, TAG_SESSION_ID, session_id)?;
            assert(w@ =~= tlv::encode_records(first));
            tlv_encode_u8(w, TAG_MODE, mode)?;
            tlv_encode_u64(w, TAG_CREATED_AT, created_at as u64)?;
            Ok(())
        };
    match build_tlv_payload(build) {
        Ok(v) => v,
        Err(_) => Vec::new(),
    }
}

/// The records of the answer to a join request.
pub open spec fn join_ack_records(session_id: Seq<u8>, mode: u8) -> Seq<tlv::Record> {
    Seq::<tlv::Record>::empty().push((TAG_SESSION_ID, session_id)).push((TAG_MODE, seq![mode]))
}

/// The payload of the answer to a join request.
pub fn build_join_ack(session_id: &[u8; SESSION_ID_LEN], mode: u8) -> (r: Vec<u8>)
    ensures
        r@ == tlv::encode_records(join_ack_records(session_id@, mode)),
{
    let ghost records = join_ack_records(session_id@, mode);
    let build = |w: &mut Vec<u8>| -> (o: Result<(), TlvError>)
        requires
            w@.len() == 0,
        ensures
            o is Ok,
            final(w)@ == tlv::encode_records(records),
        {
            let ghost first = Seq::<tlv::Record>::empty().push((TAG_SESSION_ID, session_id@));
            proof {
                tlv::lemma_encode_push(Seq::empty(), (TAG_SESSION_ID, session_id@));
                tlv::lemma_encode_push(first, (TAG_MODE, seq![mode]));
            }
            tlv_encode_bytes(w, TAG_SESSION_ID, session_id)?;
            assert(w@ =~= tlv::encode_records(first));
            tlv_encode_u8(w, TAG_MODE, mode)?;
            Ok(())
        };
    match build_tlv_payload(build) {
        Ok(v) => v,
        Err(_) => Vec::new(),
    }
}

/// What the others are told of a participant.
pub struct ParticipantView<'a> {
    pub pubkey: &'a [u8; PUBKEY_LEN],
    pub display_name: &'a str,
    pub audio_config: &'a [u8],
    pub joined_at: i64,
}

/// What the others are told of a participant, as plain values.
pub struct ParticipantInfo {
    pub pubkey: Seq<u8>,
    pub display_name: Seq<char>,
    pub audio_config: Seq<u8>,
    pub joined_at: i64,
}

impl<'a> View for ParticipantView<'a> {
    type V = ParticipantInfo;

    open spec fn view(&self) -> ParticipantInfo {
        ParticipantInfo {
            pubkey: self.pubkey@,
            display_name: self.display_name@,
            audio_config: self.audio_config@,
            joined_at: self.joined_at,
        }
    }
}

/// The records that describe one participant. An empty audio configuration is
/// left out.
pub open spec fn participant_records(p: ParticipantInfo) -> Seq<tlv::Record> {
    let head = Seq::<tlv::Record>::empty().push((TAG_PUBKEY, p.pubkey)).push(
        (TAG_DISPLAY_NAME, encode_utf8(p.display_name)),
    );
    let middle = if p.audio_config.len() == 0 {
        head
    } else {
        head.push((TAG_AUDIO_CONFIG, p.audio_config))
    };
    middle.push((TAG_JOINED_AT, time_bytes(p.joined_at)))
}

/// The records of a participant list: the session, then one nested record for
/// each participant, in order.
pub open spec fn update_records(session_id: Seq<u8>, ps: Seq<ParticipantInfo>) -> Seq<tlv::Record>
    decreases ps.len(),
{
    if ps.len() == 0 {
        Seq::<tlv::Record>::empty().push((TAG_SESSION_ID, session_id))
    } else {
        update_records(session_id, ps.drop_last()).push(
            (TAG_PARTICIPANT, tlv::encode_records(participant_records(ps.last()))),
        )
    }
}

/// Whether every record of a participant list, nested ones too, can be written.
pub open spec fn update_writable(session_id: Seq<u8>, ps: Seq<ParticipantInfo>) -> bool {
    &&& tlv::all_writable(update_records(session_id, ps))
    &&& forall|i: int|
        0 <= i < ps.len() ==> tlv::all_writable(participant_records(#[trigger] ps[i]))
}

/// The payload of a participant list; it is empty where a record of it cannot
/// be written.
pub open spec fn update_payload(session_id: Seq<u8>, ps: Seq<ParticipantInfo>) -> Seq<u8> {
    if update_writable(session_id, ps) {
        tlv::encode_records(update_records(session_id, ps))
    } else {
        Seq::empty()
    }
}

/// The nested payload that describes one participant.
fn build_participant(p: &ParticipantView<'_>) -> (r: Result<Vec<u8>, TlvError>)
    ensures
        r is Ok <==> tlv::all_writable(participant_records(p@)),
        r is Ok ==> r->Ok_0@ == tlv::encode_records(participant_records(p@)),
{
    let ghost records = participant_records(p@);
    let build = |w: &mut Vec<u8>| -> (o: Result<(), TlvError>)
        requires
            w@.len() == 0,
        ensures
            o is Ok <==> tlv::all_writable(records),
            o is Ok ==> final(w)@ == tlv::encode_records(records),
        {
            let ghost first = Seq::<tlv::Record>::empty().push((TAG_PUBKEY, p.pubkey@));
            let ghost second = first.push((TAG_DISPLAY_NAME, encode_utf8(p.display_name@)));
            let ghost third = second.push((TAG_AUDIO_CONFIG, p.audio_config@));
            proof {
                tlv::lemma_encode_push(Seq::empty(), (TAG_PUBKEY, p.pubkey@));
                tlv::lemma_encode_push(first, (TAG_DISPLAY_NAME, encode_utf8(p.display_name@)));
                tlv::lemma_encode_push(second, (TAG_AUDIO_CONFIG, p.audio_config@));
                tlv::lemma_encode_push(second, (TAG_JOINED_AT, time_bytes(p.joined_at)));
                tlv::lemma_encode_push(third, (TAG_JOINED_AT, time_bytes(p.joined_at)));
                bytes::lemma_be_bytes_len((p.joined_at as u64) as nat, 8);
            }
            tlv_encode_bytes(w, TAG_PUBKEY, p.pubkey)?;
            assert(w@ =~= tlv::encode_records(first));
            tlv_encode_string(w, TAG_DISPLAY_NAME, p.display_name)?;
            if !p.audio_config.is_empty() {
                tlv_encode_bytes(w, TAG_AUDIO_CONFIG, p.audio_config)?;
            }
            tlv_encode_u64(w, TAG_JOINED_AT, p.joined_at as u64)?;
            Ok(())
        };
    build_tlv_payload(build)
}

/// The models of a list of views.
pub open spec fn infos(ps: Seq<ParticipantView<'_>>) -> Seq<ParticipantInfo> {
    ps.map_values(|p: ParticipantView<'_>| p@)
}

/// Writes the records of a participant list to an empty buffer.
fn write_update(
    w: &mut Vec<u8>,
    session_id: &[u8; SESSION_ID_LEN],
    participants: &[ParticipantView<'_>],
) -> (o: Result<(), TlvError>)
    requires
        old(w)@.len() == 0,
    ensures
        o is Ok <==> update_writable(session_id@, infos(participants@)),
        o is Ok ==> final(w)@ == tlv::encode_records(
            update_records(session_id@, infos(participants@)),
        ),
{
    let ghost ps = infos(participants@);
    proof {
        tlv::lemma_encode_push(Seq::empty(), (TAG_SESSION_ID, session_id@));
        assert(ps.take(0) =~= Seq::<ParticipantInfo>::empty());
    }
    tlv_encode_bytes(w, TAG_SESSION_ID, session_id)?;
    assert(w@ =~= tlv::encode_records(update_records(session_id@, ps.take(0))));
    let mut i: usize = 0;
    while i < participants.len()
        invariant
            i <= participants@.len(),
            ps == infos(participants@),
            update_writable(session_id@, ps.take(i as int)),
            w@ == tlv::encode_records(update_records(session_id@, ps.take(i as int))),
        decreases participants@.len() - i,
    {
        let ghost here = ps.take(i as int);
        let ghost next = ps.take(i + 1);
        let ghost inner_records = participant_records(participants@[i as int]@);
        proof {
            assert(next.drop_last() =~= here);
            assert(next.last() == participants@[i as int]@);
            tlv::lemma_encode_push(
                update_records(session_id@, here),
                (TAG_PARTICIPANT, tlv::encode_records(inner_records)),
            );
            if update_writable(session_id@, ps) {
                lemma_update_prefix(session_id@, ps, i + 1);
            }
            assert(next[i as int] == participants@[i as int]@);
        }
        let inner: Vec<u8> = build_participant(&participants[i])?;
        tlv_encode_bytes(w, TAG_PARTICIPANT, inner.as_slice())?;
        proof {
            assert forall|j: int| 0 <= j < next.len() implies tlv::all_writable(
                participant_records(#[trigger] next[j]),
            ) by {
                if j < i {
                    assert(next[j] == here[j]);
                }
            }
        }
        i = i + 1;
    }
    assert(ps.take(participants@.len() as int) =~= ps);
    Ok(())
}

/// A list that can be written can be written up to any place.
proof fn lemma_update_prefix(session_id: Seq<u8>, ps: Seq<ParticipantInfo>, k: int)
    requires
        0 <= k <= ps.len(),
        update_writable(session_id, ps),
    ensures
        update_writable(session_id, ps.take(k)),
    decreases ps.len(),
{
    if k == ps.len() {
        assert(ps.take(k) =~= ps);
    } else {
        let front = ps.drop_last();
        tlv::lemma_encode_push(
            update_records(session_id, front),
            (TAG_PARTICIPANT, tlv::encode_records(participant_records(ps.last()))),
        );
        assert forall|j: int| 0 <= j < front.len() implies tlv::all_writable(
            participant_records(#[trigger] front[j]),
        ) by {
            assert(front[j] == ps[j]);
        }
        lemma_update_prefix(session_id, front, k);
        assert(front.take(k) =~= ps.take(k));
    }
}

/// The payload of a participant list.
pub fn build_participant_update(
    session_id: &[u8; SESSION_ID_LEN],
    participants: &[ParticipantView<'_>],
) -> (r: Vec<u8>)
    ensures
        r@ == update_payload(session_id@, infos(participants@)),
{
    let ghost ps = infos(participants@);
    let build = |w: &mut Vec<u8>| -> (o: Result<(), TlvError>)
        requires
            w@.len() == 0,
        ensures
            o is Ok <==> update_writable(session_id@, ps),
            o is Ok ==> final(w)@ == tlv::encode_records(update_records(session_id@, ps)),
        { write_update(w, session_id, participants) };
    match build_tlv_payload(build) {
        Ok(v) => v,
        Err(_) => Vec::new(),
    }
}

/// The records of a single join or leave.
pub open spec fn event_records(
    session_id: Seq<u8>,
    event: u8,
    pubkey: Seq<u8>,
    display_name: Seq<char>,
) -> Seq<tlv::Record> {
    Seq::<tlv::Record>::empty().push((TAG_SESSION_ID, session_id)).push(
        (TAG_EVENT_TYPE, seq![event]),
    ).push((TAG_PUBKEY, pubkey)).push((TAG_DISPLAY_NAME, encode_utf8(display_name)))
}

/// The payload of a single join or leave.
pub fn build_participant_event(
    session_id: &[u8; SESSION_ID_LEN],
    event: u8,
    pubkey: &[u8; PUBKEY_LEN],
    display_name: &str,
) -> (r: Vec<u8>)
    ensures
        r@ == tlv::payload(event_records(session_id@, event, pubkey@, display_name@)),
{
    let ghost records = event_records(session_id@, event, pubkey@, display_name@);
    let build = |w: &mut Vec<u8>| -> (o: Result<(), TlvError>)
        requires
            w@.len() == 0,
        ensures
            o is Ok <==> tlv::all_writable(records),
            o is Ok ==> final(w)@ == tlv::encode_records(records),
        {
            let ghost first = Seq::<tlv::Record>::empty().push((TAG_SESSION_ID, session_id@));
            let ghost second = first.push((TAG_EVENT_TYPE, seq![event]));
            let ghost third = second.push((TAG_PUBKEY, pubkey@));
            proof {
                tlv::lemma_encode_push(Seq::empty(), (TAG_SESSION_ID, session_id@));
                tlv::lemma_encode_push(first, (TAG_EVENT_TYPE, seq![event]));
                tlv::lemma_encode_push(second, (TAG_PUBKEY, pubkey@));
                tlv::lemma_encode_push(third, (TAG_DISPLAY_NAME, encode_utf8(display_name@)));
            }
            tlv_encode_bytes(w, TAG_SESSION_ID, session_id)?;
            assert(w@ =~= tlv::encode_records(first));
            tlv_encode_u8(w, TAG_EVENT_TYPE, event)?;
            tlv_encode_bytes(w, TAG_PUBKEY, pubkey)?;
            tlv_encode_string(w, TAG_DISPLAY_NAME, display_name)?;
            Ok(())
        };
    match build_tlv_payload(build) {
        Ok(v) => v,
        Err(_) => Vec::new(),
    }
}

// ── Laws ─────────────────────────────────────────────────────────────────

/// What a read gives back of a write: the bytes of a frame spell its command
/// and its body, provided that the body is within the limit.
pub proof fn frame_roundtrip(cmd: u8, body: Seq<u8>)
    requires
        body.len() <= MAX_CONTROL_FRAME,
    ensures
        frame_status(frame_bytes(cmd, body)) == FrameStatus::Done(cmd, body),
{
    let s = frame_bytes(cmd, body);
    reveal_with_fuel(bytes::pow256, 5);
    bytes::be_roundtrip(body.len(), 4);
    assert(s.subrange(2, 6) =~= bytes::be_bytes(body.len(), 4));
    assert(s.subrange(6, 6 + body.len() as int) =~= body);
}

/// However a stream cuts a frame into reads, no frame comes out before its last
/// byte, and the reader never asks for a byte beyond it: every proper prefix
/// wants more, and no more than what is missing.
pub proof fn frame_prefix_wants_more(cmd: u8, body: Seq<u8>, k: int)
    requires
        body.len() <= MAX_CONTROL_FRAME,
        0 <= k < frame_bytes(cmd, body).len(),
    ensures
        frame_status(frame_bytes(cmd, body).take(k)) is More,
        0 < frame_status(frame_bytes(cmd, body).take(k))->More_0 <= frame_bytes(cmd, body).len()
            - k,
{
    let s = frame_bytes(cmd, body);
    reveal_with_fuel(bytes::pow256, 5);
    bytes::be_roundtrip(body.len(), 4);
    assert(s.subrange(2, 6) =~= bytes::be_bytes(body.len(), 4));
    if k >= 6 {
        assert(s.take(k).subrange(2, 6) =~= s.subrange(2, 6));
    }
}

/// A frame that is over the limit is refused as soon as its header is there.
pub proof fn oversized_frame_refused(cmd: u8, body: Seq<u8>)
    requires
        MAX_CONTROL_FRAME < body.len() < 0x1_0000_0000,
    ensures
        frame_status(frame_bytes(cmd, body).take(FRAME_HEADER_LEN as int)) is Bad,
{
    let s = frame_bytes(cmd, body);
    reveal_with_fuel(bytes::pow256, 5);
    bytes::be_roundtrip(body.len(), 4);
    assert(s.take(6).subrange(2, 6) =~= bytes::be_bytes(body.len(), 4));
}

/// A datagram that was written reads back: a header and what follows it give
/// the session, the sender, the sequence number and the payload.
pub proof fn packet_roundtrip(
    session_id: Seq<u8>,
    from_pubkey: Seq<u8>,
    seq: nat,
    payload: Seq<u8>,
)
    requires
        session_id.len() == SESSION_ID_LEN,
        from_pubkey.len() == PUBKEY_LEN,
        seq <= u32::MAX,
    ensures
        ({
            let buf = packet_header(session_id, from_pubkey, seq) + payload;
            &&& packet_error(buf) is None
            &&& packet_session(buf) == session_id
            &&& packet_sender(buf) == from_pubkey
            &&& packet_seq(buf) == seq
            &&& buf.skip(DATAGRAM_HEADER_LEN as int) == payload
        }),
{
    let buf = packet_header(session_id, from_pubkey, seq) + payload;
    reveal_with_fuel(bytes::pow256, 5);
    bytes::be_roundtrip(seq, 4);
    assert(packet_session(buf) =~= session_id);
    assert(packet_sender(buf) =~= from_pubkey);
    assert(buf.subrange(50, 54) =~= bytes::be_bytes(seq, 4));
    assert(buf.skip(54) =~= payload);
}

/// The client can read an error: the code and the message come back.
pub proof fn error_readable(code: u8, msg: Seq<char>)
    requires
        encode_utf8(msg).len() < tlv::VARINT_END,
    ensures
        ({
            let records = tlv::parse_records(tlv::payload(error_records(code, msg)));
            let m = tlv::last_values(error_records(code, msg));
            &&& records == Ok::<Seq<tlv::Record>, TlvError>(error_records(code, msg))
            &&& tlv::get_number(m, TAG_ERROR_CODE, 1) == Ok::<nat, Seq<char>>(code as nat)
            &&& msg.len() > 0 ==> tlv::get_text(m, TAG_ERROR_MSG) == Ok::<Seq<char>, Seq<char>>(
                msg,
            )
        }),
{
    let records = error_records(code, msg);
    let none = Seq::<tlv::Record>::empty();
    let head = none.push((TAG_ERROR_CODE, seq![code]));
    assert(tlv::all_writable(records));
    tlv::records_roundtrip(records);
    tlv::lemma_last_push(none, (TAG_ERROR_CODE, seq![code]));
    bytes::lemma_be_single(code);
    if msg.len() > 0 {
        tlv::lemma_last_push(head, (TAG_ERROR_MSG, encode_utf8(msg)));
        encode_utf8_valid_utf8(msg);
        encode_utf8_decode_utf8(msg);
    }
}

/// The client can read the answer to a create request: the session id and the
/// mode come back.
pub proof fn create_ack_readable(session_id: Seq<u8>, mode: u8, created_at: i64)
    requires
        session_id.len() == SESSION_ID_LEN,
    ensures
        ({
            let records = create_ack_records(session_id, mode, created_at);
            let m = tlv::last_values(records);
            &&& tlv::parse_records(tlv::encode_records(records)) == Ok::<
                Seq<tlv::Record>,
                TlvError,
            >(records)
            &&& tlv::get_bytes(m, TAG_SESSION_ID, SESSION_ID_LEN as nat) == Ok::<
                Seq<u8>,
                Seq<char>,
            >(session_id)
            &&& tlv::get_number(m, TAG_MODE, 1) == Ok::<nat, Seq<char>>(mode as nat)
            &&& tlv::get_number(m, TAG_CREATED_AT, 8) == Ok::<nat, Seq<char>>(
                (created_at as u64) as nat,
            )
        }),
{
    let records = create_ack_records(session_id, mode, created_at);
    let first = Seq::<tlv::Record>::empty().push((TAG_SESSION_ID, session_id));
    let second = first.push((TAG_MODE, seq![mode]));
    let t = (created_at as u64) as nat;
    reveal_with_fuel(bytes::pow256, 9);
    bytes::be_roundtrip(t, 8);
    assert(tlv::all_writable(records));
    tlv::records_roundtrip(records);
    tlv::lemma_last_push(Seq::empty(), (TAG_SESSION_ID, session_id));
    tlv::lemma_last_push(first, (TAG_MODE, seq![mode]));
    tlv::lemma_last_push(second, (TAG_CREATED_AT, time_bytes(created_at)));
    bytes::lemma_be_single(mode);
}

/// The client can read the answer to a join request: the session id and the
/// mode come back.
pub proof fn join_ack_readable(session_id: Seq<u8>, mode: u8)
    requires
        session_id.len() == SESSION_ID_LEN,
    ensures
        ({
            let records = join_ack_records(session_id, mode);
            let m = tlv::last_values(records);
            &&& tlv::parse_records(tlv::encode_records(records)) == Ok::<
                Seq<tlv::Record>,
                TlvError,
            >(records)
            &&& tlv::get_bytes(m, TAG_SESSION_ID, SESSION_ID_LEN as nat) == Ok::<
                Seq<u8>,
                Seq<char>,
            >(session_id)
            &&& tlv::get_number(m, TAG_MODE, 1) == Ok::<nat, Seq<char>>(mode as nat)
        }),
{
    let records = join_ack_records(session_id, mode);
    let first = Seq::<tlv::Record>::empty().push((TAG_SESSION_ID, session_id));
    assert(tlv::all_writable(records));
    tlv::records_roundtrip(records);
    tlv::lemma_last_push(Seq::empty(), (TAG_SESSION_ID, session_id));
    tlv::lemma_last_push(first, (TAG_MODE, seq![mode]));
    bytes::lemma_be_single(mode);
}

/// The client can read a participant list: the session and one nested record
/// for each participant come back, in order, and each nested payload reads as
/// the records of its participant.
pub proof fn update_readable(session_id: Seq<u8>, ps: Seq<ParticipantInfo>)
    requires
        update_writable(session_id, ps),
    ensures
        tlv::parse_records(update_payload(session_id, ps)) == Ok::<Seq<tlv::Record>, TlvError>(
            update_records(session_id, ps),
        ),
        update_records(session_id, ps).len() == ps.len() + 1,
        update_records(session_id, ps)[0] == (TAG_SESSION_ID, session_id),
        forall|i: int|
            0 <= i < ps.len() ==> (#[trigger] update_records(session_id, ps)[i + 1]).0
                == TAG_PARTICIPANT && tlv::parse_records(update_records(session_id, ps)[i + 1].1)
                == Ok::<Seq<tlv::Record>, TlvError>(participant_records(ps[i])),
{
    let records = update_records(session_id, ps);
    lemma_update_shape(session_id, ps);
    tlv::records_roundtrip(records);
    assert forall|i: int| 0 <= i < ps.len() implies (#[trigger] records[i + 1]).0
        == TAG_PARTICIPANT && tlv::parse_records(records[i + 1].1) == Ok::<
        Seq<tlv::Record>,
        TlvError,
    >(participant_records(ps[i])) by {
        tlv::records_roundtrip(participant_records(ps[i]));
    }
}

pub(crate) proof fn lemma_update_shape(session_id: Seq<u8>, ps: Seq<ParticipantInfo>)
    ensures
        update_records(session_id, ps).len() == ps.len() + 1,
        update_records(session_id, ps)[0] == (TAG_SESSION_ID, session_id),
        forall|i: int|
            0 <= i < ps.len() ==> #[trigger] update_records(session_id, ps)[i + 1] == (
                TAG_PARTICIPANT,
                tlv::encode_records(participant_records(ps[i])),
            ),
    decreases ps.len(),
{
    if ps.len() > 0 {
        let front = ps.drop_last();
        lemma_update_shape(session_id, front);
        let records = update_records(session_id, ps);
        let before = update_records(session_id, front);
        assert forall|i: int| 0 <= i < ps.len() implies #[trigger] records[i + 1] == (
            TAG_PARTICIPANT,
            tlv::encode_records(participant_records(ps[i])),
        ) by {
            if i < front.len() {
                assert(records[i + 1] == before[i + 1]);
                assert(front[i] == ps[i]);
            }
        }
    }
}

/// Whether what is told of a participant keeps to the limits of the protocol.
pub open spec fn info_within_limits(p: ParticipantInfo) -> bool {
    &&& p.pubkey.len() == PUBKEY_LEN
    &&& encode_utf8(p.display_name).len() <= MAX_DISPLAY_NAME_LEN
    &&& p.audio_config.len() <= MAX_ASC_LEN
}

/// A record takes at most five bytes more than its value.
proof fn lemma_record_len(tag: u8, value: Seq<u8>)
    requires
        tlv::writable(value),
    ensures
        tlv::encode_record(tag, value).len() <= 5 + value.len(),
{
    reveal_with_fuel(tlv::varint_bytes, 5);
}

/// What tells of a participant takes at most this much more than the name and
/// the audio configuration.
pub(crate) proof fn lemma_participant_len(p: ParticipantInfo)
    requires
        p.pubkey.len() == PUBKEY_LEN,
        tlv::writable(encode_utf8(p.display_name)),
        tlv::writable(p.audio_config),
    ensures
        tlv::all_writable(participant_records(p)),
        tlv::encode_records(participant_records(p)).len() <= 60 + encode_utf8(p.display_name).len()
            + p.audio_config.len(),
{
    let records = participant_records(p);
    let first = Seq::<tlv::Record>::empty().push((TAG_PUBKEY, p.pubkey));
    let second = first.push((TAG_DISPLAY_NAME, encode_utf8(p.display_name)));
    let third = second.push((TAG_AUDIO_CONFIG, p.audio_config));
    bytes::lemma_be_bytes_len((p.joined_at as u64) as nat, 8);
    assert(tlv::all_writable(records));
    tlv::lemma_encode_push(Seq::empty(), (TAG_PUBKEY, p.pubkey));
    tlv::lemma_encode_push(first, (TAG_DISPLAY_NAME, encode_utf8(p.display_name)));
    tlv::lemma_encode_push(second, (TAG_AUDIO_CONFIG, p.audio_config));
    tlv::lemma_encode_push(second, (TAG_JOINED_AT, time_bytes(p.joined_at)));
    tlv::lemma_encode_push(third, (TAG_JOINED_AT, time_bytes(p.joined_at)));
    lemma_record_len(TAG_PUBKEY, p.pubkey);
    lemma_record_len(TAG_DISPLAY_NAME, encode_utf8(p.display_name));
    lemma_record_len(TAG_AUDIO_CONFIG, p.audio_config);
    lemma_record_len(TAG_JOINED_AT, time_bytes(p.joined_at));
}

proof fn lemma_participant_short(p: ParticipantInfo)
    requires
        info_within_limits(p),
    ensures
        tlv::all_writable(participant_records(p)),
        tlv::encode_records(participant_records(p)).len() <= 200,
{
    lemma_participant_len(p);
}

/// A list of participants who keep to the limits of the protocol can always be
/// written and read back.
pub proof fn update_within_limits_is_writable(session_id: Seq<u8>, ps: Seq<ParticipantInfo>)
    requires
        session_id.len() == SESSION_ID_LEN,
        forall|i: int| 0 <= i < ps.len() ==> info_within_limits(#[trigger] ps[i]),
    ensures
        update_writable(session_id, ps),
{
    let records = update_records(session_id, ps);
    lemma_update_shape(session_id, ps);
    assert forall|i: int| 0 <= i < ps.len() implies tlv::all_writable(
        participant_records(#[trigger] ps[i]),
    ) by {
        lemma_participant_short(ps[i]);
    }
    assert forall|j: int| 0 <= j < records.len() implies tlv::writable(
        (#[trigger] records[j]).1,
    ) by {
        if j > 0 {
            assert(records[(j - 1) + 1] == records[j]);
            lemma_participant_short(ps[j - 1]);
        }
    }
}

/// How long the payload of a participant list can be.
pub proof fn update_payload_bound(session_id: Seq<u8>, ps: Seq<ParticipantInfo>)
    requires
        session_id.len() == SESSION_ID_LEN,
        forall|i: int| 0 <= i < ps.len() ==> info_within_limits(#[trigger] ps[i]),
    ensures
        update_payload(session_id, ps).len() <= 21 + 205 * ps.len(),
{
    lemma_update_bound(session_id, ps);
}

proof fn lemma_update_bound(session_id: Seq<u8>, ps: Seq<ParticipantInfo>)
    requires
        session_id.len() == SESSION_ID_LEN,
        forall|i: int| 0 <= i < ps.len() ==> info_within_limits(#[trigger] ps[i]),
    ensures
        tlv::encode_records(update_records(session_id, ps)).len() <= 21 + 205 * ps.len(),
    decreases ps.len(),
{
    if ps.len() == 0 {
        tlv::lemma_encode_push(Seq::empty(), (TAG_SESSION_ID, session_id));
        lemma_record_len(TAG_SESSION_ID, session_id);
    } else {
        let front = ps.drop_last();
        let nested = tlv::encode_records(participant_records(ps.last()));
        assert forall|i: int| 0 <= i < front.len() implies info_within_limits(
            #[trigger] front[i],
        ) by {
            assert(front[i] == ps[i]);
        }
        lemma_update_bound(session_id, front);
        assert(info_within_limits(ps[ps.len() - 1]));
        lemma_participant_short(ps.last());
        tlv::lemma_encode_push(update_records(session_id, front), (TAG_PARTICIPANT, nested));
        lemma_record_len(TAG_PARTICIPANT, nested);
    }
}

/// How long the payload of a join or leave event can be.
pub proof fn event_payload_bound(
    session_id: Seq<u8>,
    event: u8,
    pubkey: Seq<u8>,
    display_name: Seq<char>,
)
    requires
        session_id.len() == SESSION_ID_LEN,
        pubkey.len() == PUBKEY_LEN,
        encode_utf8(display_name).len() <= MAX_DISPLAY_NAME_LEN,
    ensures
        tlv::payload(event_records(session_id, event, pubkey, display_name)).len() <= 133,
{
    let first = Seq::<tlv::Record>::empty().push((TAG_SESSION_ID, session_id));
    let second = first.push((TAG_EVENT_TYPE, seq![event]));
    let third = second.push((TAG_PUBKEY, pubkey));
    tlv::lemma_encode_push(Seq::empty(), (TAG_SESSION_ID, session_id));
    tlv::lemma_encode_push(first, (TAG_EVENT_TYPE, seq![event]));
    tlv::lemma_encode_push(second, (TAG_PUBKEY, pubkey));
    tlv::lemma_encode_push(third, (TAG_DISPLAY_NAME, encode_utf8(display_name)));
    lemma_record_len(TAG_SESSION_ID, session_id);
    lemma_record_len(TAG_EVENT_TYPE, seq![event]);
    lemma_record_len(TAG_PUBKEY, pubkey);
    lemma_record_len(TAG_DISPLAY_NAME, encode_utf8(display_name));
}

/// How long the payload of an error can be.
pub proof fn error_payload_bound(code: u8, msg: Seq<char>)
    requires
        encode_utf8(msg).len() < tlv::VARINT_END,
    ensures
        tlv::payload(error_records(code, msg)).len() <= 11 + encode_utf8(msg).len(),
{
    let head = Seq::<tlv::Record>::empty().push((TAG_ERROR_CODE, seq![code]));
    tlv::lemma_encode_push(Seq::empty(), (TAG_ERROR_CODE, seq![code]));
    tlv::lemma_encode_push(head, (TAG_ERROR_MSG, encode_utf8(msg)));
    lemma_record_len(TAG_ERROR_CODE, seq![code]);
    lemma_record_len(TAG_ERROR_MSG, encode_utf8(msg));
}

/// How long the payload of an acknowledgement can be.
pub proof fn ack_payload_bound(session_id: Seq<u8>, mode: u8, created_at: i64)
    requires
        session_id.len() == SESSION_ID_LEN,
    ensures
        tlv::encode_records(create_ack_records(session_id, mode, created_at)).len() <= 40,
        tlv::encode_records(join_ack_records(session_id, mode)).len() <= 27,
{
    let first = Seq::<tlv::Record>::empty().push((TAG_SESSION_ID, session_id));
    let second = first.push((TAG_MODE, seq![mode]));
    tlv::lemma_encode_push(Seq::empty(), (TAG_SESSION_ID, session_id));
    tlv::lemma_encode_push(first, (TAG_MODE, seq![mode]));
    tlv::lemma_encode_push(second, (TAG_CREATED_AT, time_bytes(created_at)));
    bytes::lemma_be_bytes_len((created_at as u64) as nat, 8);
    lemma_record_len(TAG_SESSION_ID, session_id);
    lemma_record_len(TAG_MODE, seq![mode]);
    lemma_record_len(TAG_CREATED_AT, time_bytes(created_at));
}

/// The client can read a join or leave event: the session, the kind of event,
/// the participant and the display name come back.
pub proof fn event_readable(
    session_id: Seq<u8>,
    event: u8,
    pubkey: Seq<u8>,
    display_name: Seq<char>,
)
    requires
        session_id.len() == SESSION_ID_LEN,
        pubkey.len() == PUBKEY_LEN,
        encode_utf8(display_name).len() < tlv::VARINT_END,
    ensures
        ({
            let records = event_records(session_id, event, pubkey, display_name);
            let m = tlv::last_values(records);
            &&& tlv::parse_records(tlv::payload(records)) == Ok::<Seq<tlv::Record>, TlvError>(
                records,
            )
            &&& tlv::get_bytes(m, TAG_SESSION_ID, SESSION_ID_LEN as nat) == Ok::<
                Seq<u8>,
                Seq<char>,
            >(session_id)
            &&& tlv::get_number(m, TAG_EVENT_TYPE, 1) == Ok::<nat, Seq<char>>(event as nat)
            &&& tlv::get_bytes(m, TAG_PUBKEY, PUBKEY_LEN as nat) == Ok::<Seq<u8>, Seq<char>>(
                pubkey,
            )
            &&& tlv::get_text(m, TAG_DISPLAY_NAME) == Ok::<Seq<char>, Seq<char>>(display_name)
        }),
{
    let records = event_records(session_id, event, pubkey, display_name);
    let first = Seq::<tlv::Record>::empty().push((TAG_SESSION_ID, session_id));
    let second = first.push((TAG_EVENT_TYPE, seq![event]));
    let third = second.push((TAG_PUBKEY, pubkey));
    assert(tlv::all_writable(records));
    tlv::records_roundtrip(records);
    tlv::lemma_last_push(Seq::empty(), (TAG_SESSION_ID, session_id));
    tlv::lemma_last_push(first, (TAG_EVENT_TYPE, seq![event]));
    tlv::lemma_last_push(second, (TAG_PUBKEY, pubkey));
    tlv::lemma_last_push(third, (TAG_DISPLAY_NAME, encode_utf8(display_name)));
    bytes::lemma_be_single(event);
    encode_utf8_valid_utf8(display_name);
    encode_utf8_decode_utf8(display_name);
}

} // verus!
