//! The media path: takes a datagram apart, makes sure that its sender is a
//! member of the session, and sends it on, unchanged, to all other members.
//!
//! Clients name their permanent identity as the sender, but they are routed by
//! another, ephemeral key, so a sender cannot be held to its address. Membership
//! of the session is what is enforced here.

use vstd::prelude::*;
use vstd::slice::*;

use crate::bytes::same_bytes;
use crate::constants::{DG_CALL_PACKET, MAX_DATAGRAM};
use crate::protocol::{self, parse_call_packet, CallPacketHeader};
use crate::server::{ServerModel, ServerState};
use crate::session::{
    CallMode, CallSession, Participant, ParticipantModel, PubKey, SessionModel,
};

verus! {

/// Of the datagrams that go one way, the first and every so many are logged.
pub const LOG_EVERY: u64 = 100;

/// Of all datagrams, every so many are logged.
pub const TOTAL_LOG_EVERY: u64 = 500;

// ── Counting ─────────────────────────────────────────────────────────────

/// The count after `n`. It starts over when it is used up.
pub open spec fn count_after(n: u64) -> u64 {
    if n == u64::MAX {
        0
    } else {
        (n + 1) as u64
    }
}

/// Whether the `n`-th datagram of its kind is logged.
pub open spec fn logged(n: u64) -> bool {
    n == 1 || n % LOG_EVERY == 0
}

/// Counts one up, and says whether this one is logged and which one it is.
pub fn should_log(counter: &mut u64) -> (r: (bool, u64))
    ensures
        *final(counter) == count_after(*old(counter)),
        r == (logged(*final(counter)), *final(counter)),
{
    let n: u64 = (*counter).wrapping_add(1);
    *counter = n;
    (n == 1 || n % LOG_EVERY == 0, n)
}

/// How many datagrams went each way.
#[derive(Clone, Copy, Debug)]
pub struct MediaCounters {
    pub total: u64,
    pub oversized: u64,
    pub unknown_type: u64,
    pub rx: u64,
    pub parse_fail: u64,
    pub unknown_session: u64,
    pub not_member: u64,
    pub mcu: u64,
    pub forward: u64,
    pub no_targets: u64,
}

impl MediaCounters {
    pub fn new() -> (r: Self)
        ensures
            r == (MediaCounters {
                total: 0,
                oversized: 0,
                unknown_type: 0,
                rx: 0,
                parse_fail: 0,
                unknown_session: 0,
                not_member: 0,
                mcu: 0,
                forward: 0,
                no_targets: 0,
            }),
    {
        MediaCounters {
            total: 0,
            oversized: 0,
            unknown_type: 0,
            rx: 0,
            parse_fail: 0,
            unknown_session: 0,
            not_member: 0,
            mcu: 0,
            forward: 0,
            no_targets: 0,
        }
    }
}

// ── Call packets ─────────────────────────────────────────────────────────

/// A datagram that is to be sent.
#[derive(Debug)]
pub struct Outgoing {
    /// The participant that it is for.
    pub identity: PubKey,
    /// The routing key of the participant: the address of the datagram.
    pub to: PubKey,
    pub data: Vec<u8>,
}

/// A datagram that is to be sent, as plain values.
#[verifier::ext_equal]
pub struct OutgoingModel {
    pub identity: Seq<u8>,
    pub to: Seq<u8>,
    pub data: Seq<u8>,
}

impl View for Outgoing {
    type V = OutgoingModel;

    open spec fn view(&self) -> OutgoingModel {
        OutgoingModel { identity: self.identity@, to: self.to@, data: self.data@ }
    }
}

/// What becomes of a call packet.
#[derive(Debug)]
pub enum MediaOutcome {
    /// It is no call packet.
    ParseFail(&'static str),
    UnknownSession,
    /// Its sender is not in the session.
    NotMember,
    /// Its sender is alone in the session.
    NoTargets,
    /// It is forwarded.
    Forward(Vec<Outgoing>),
    /// The session mixes on the server, which is not available.
    Mcu,
}

/// What becomes of a call packet, as plain values.
pub enum MediaModel {
    ParseFail(Seq<char>),
    UnknownSession,
    NotMember,
    NoTargets,
    Forward(Seq<OutgoingModel>),
    Mcu,
}

/// The models of a list of datagrams.
pub open spec fn outgoing_models(s: Seq<Outgoing>) -> Seq<OutgoingModel> {
    s.map_values(|o: Outgoing| o@)
}

impl View for MediaOutcome {
    type V = MediaModel;

    open spec fn view(&self) -> MediaModel {
        match self {
            MediaOutcome::ParseFail(e) => MediaModel::ParseFail(e@),
            MediaOutcome::UnknownSession => MediaModel::UnknownSession,
            MediaOutcome::NotMember => MediaModel::NotMember,
            MediaOutcome::NoTargets => MediaModel::NoTargets,
            MediaOutcome::Forward(out) => MediaModel::Forward(outgoing_models(out@)),
            MediaOutcome::Mcu => MediaModel::Mcu,
        }
    }
}

impl ParticipantModel {
    /// A datagram for this participant.
    pub open spec fn datagram(self, data: Seq<u8>) -> OutgoingModel {
        OutgoingModel { identity: self.pubkey, to: self.ygg_pubkey, data }
    }
}

impl SessionModel {
    /// A datagram of `sender` on its way: unchanged, to everyone in the session
    /// but the sender, in order.
    pub open spec fn fan_out(self, sender: Seq<u8>, data: Seq<u8>) -> Seq<OutgoingModel> {
        self.participants.filter(|p: ParticipantModel| p.pubkey != sender).map_values(
            |p: ParticipantModel| p.datagram(data),
        )
    }
}

impl ServerModel {
    /// What becomes of a call packet.
    pub open spec fn packet_fate(self, data: Seq<u8>) -> MediaModel {
        match protocol::packet_error(data) {
            Some(e) => MediaModel::ParseFail(e),
            None => match self.registry.session(protocol::packet_session(data)) {
                None => MediaModel::UnknownSession,
                Some(s) => {
                    let sender = protocol::packet_sender(data);
                    if !s.has(sender) {
                        MediaModel::NotMember
                    } else if s.mode == CallMode::Mcu {
                        MediaModel::Mcu
                    } else if s.fan_out(sender, data).len() == 0 {
                        MediaModel::NoTargets
                    } else {
                        MediaModel::Forward(s.fan_out(sender, data))
                    }
                },
            },
        }
    }
}

impl MediaCounters {
    /// The counters once a call packet has met its fate.
    pub open spec fn after_packet(self, fate: MediaModel) -> MediaCounters {
        let c = MediaCounters { rx: count_after(self.rx), ..self };
        match fate {
            MediaModel::ParseFail(_) => MediaCounters {
                parse_fail: count_after(c.parse_fail),
                ..c
            },
            MediaModel::UnknownSession => MediaCounters {
                unknown_session: count_after(c.unknown_session),
                ..c
            },
            MediaModel::NotMember => MediaCounters { not_member: count_after(c.not_member), ..c },
            MediaModel::NoTargets => MediaCounters { no_targets: count_after(c.no_targets), ..c },
            MediaModel::Forward(_) => MediaCounters { forward: count_after(c.forward), ..c },
            MediaModel::Mcu => MediaCounters { mcu: count_after(c.mcu), ..c },
        }
    }

    /// How many call packets have met this fate.
    pub open spec fn of_fate(self, fate: MediaModel) -> u64 {
        match fate {
            MediaModel::ParseFail(_) => self.parse_fail,
            MediaModel::UnknownSession => self.unknown_session,
            MediaModel::NotMember => self.not_member,
            MediaModel::NoTargets => self.no_targets,
            MediaModel::Forward(_) => self.forward,
            MediaModel::Mcu => self.mcu,
        }
    }
}

/// A call packet that has been dealt with.
#[derive(Debug)]
pub struct MediaStep {
    pub outcome: MediaOutcome,
    /// Whether its arrival is logged, and as which.
    pub rx: (bool, u64),
    /// Whether its fate is logged, and as which of that fate.
    pub note: (bool, u64),
}

/// A datagram of `sender`, for everyone in the session but the sender.
fn fan_out(session: &CallSession, sender: &PubKey, data: &[u8]) -> (r: Vec<Outgoing>)
    ensures
        outgoing_models(r@) == session@.fan_out(sender@, data@),
{
    let ghost ps = session@.participants;
    let ghost wanted = |p: ParticipantModel| p.pubkey != sender@;
    let ghost to_datagram = |p: ParticipantModel| p.datagram(data@);
    let mut r: Vec<Outgoing> = Vec::new();
    let mut i: usize = 0;
    proof {
        reveal(Seq::filter);
        assert(ps.take(0) =~= Seq::<ParticipantModel>::empty());
        assert(outgoing_models(r@) =~= ps.take(0).filter(wanted).map_values(to_datagram));
    }
    while i < session.participants.len()
        invariant
            i <= session.participants@.len(),
            ps == session@.participants,
            wanted == (|p: ParticipantModel| p.pubkey != sender@),
            to_datagram == (|p: ParticipantModel| p.datagram(data@)),
            outgoing_models(r@) == ps.take(i as int).filter(wanted).map_values(to_datagram),
        decreases session.participants@.len() - i,
    {
        let p: &Participant = &session.participants[i];
        let ghost before = ps.take(i as int).filter(wanted);
        proof {
            reveal(Seq::filter);
            assert(ps.take(i + 1).drop_last() =~= ps.take(i as int));
            assert(ps.take(i + 1).last() == p@);
        }
        if !same_bytes(&p.pubkey, sender) {
            let out: Outgoing = Outgoing {
                identity: p.pubkey,
                to: p.ygg_pubkey,
                data: slice_to_vec(data),
            };
            proof {
                assert(outgoing_models(r@.push(out)) =~= outgoing_models(r@).push(out@));
                assert(before.push(p@).map_values(to_datagram) =~= before.map_values(
                    to_datagram,
                ).push(out@));
            }
            r.push(out);
        }
        i = i + 1;
    }
    assert(ps.take(ps.len() as int) =~= ps);
    r
}

/// Says what becomes of a call packet.
fn packet_outcome(state: &ServerState, data: &[u8]) -> (r: MediaOutcome)
    requires
        state@.wf(),
    ensures
        r@ == state@.packet_fate(data@),
{
    let hdr: CallPacketHeader<'_> = match parse_call_packet(data) {
        Ok(h) => h,
        Err(e) => {
            return MediaOutcome::ParseFail(e);
        },
    };
    match state.registry.get(hdr.session_id) {
        None => MediaOutcome::UnknownSession,
        Some(session) => {
            if session.find(hdr.from_pubkey).is_none() {
                return MediaOutcome::NotMember;
            }
            match session.mode {
                CallMode::Mcu => MediaOutcome::Mcu,
                CallMode::Sfu => {
                    let out: Vec<Outgoing> = fan_out(session, hdr.from_pubkey, data);
                    assert(outgoing_models(out@).len() == out@.len());
                    if out.len() == 0 {
                        MediaOutcome::NoTargets
                    } else {
                        MediaOutcome::Forward(out)
                    }
                },
            }
        },
    }
}

/// Deals with a call packet: says what becomes of it, and counts it.
pub fn handle_call_packet(state: &ServerState, counters: &mut MediaCounters, data: &[u8]) -> (r:
    MediaStep)
    requires
        state@.wf(),
    ensures
        ({
            let fate = state@.packet_fate(data@);
            let after = old(counters).after_packet(fate);
            &&& r.outcome@ == fate
            &&& *final(counters) == after
            &&& r.rx == (logged(after.rx), after.rx)
            &&& r.note == (logged(after.of_fate(fate)), after.of_fate(fate))
        }),
{
    let rx: (bool, u64) = should_log(&mut counters.rx);
    let outcome: MediaOutcome = packet_outcome(state, data);
    let note: (bool, u64) = match &outcome {
        MediaOutcome::ParseFail(_) => should_log(&mut counters.parse_fail),
        MediaOutcome::UnknownSession => should_log(&mut counters.unknown_session),
        MediaOutcome::NotMember => should_log(&mut counters.not_member),
        MediaOutcome::NoTargets => should_log(&mut counters.no_targets),
        MediaOutcome::Forward(_) => should_log(&mut counters.forward),
        MediaOutcome::Mcu => should_log(&mut counters.mcu),
    };
    MediaStep { outcome, rx, note }
}

// ── Datagrams ────────────────────────────────────────────────────────────

/// What a datagram is.
#[derive(Debug)]
pub enum DatagramKind {
    /// Nothing in it: it is passed over.
    Empty,
    /// Over the limit: it is dropped. Whether that is logged, and as which.
    Oversized((bool, u64)),
    /// Of an unknown type: it is dropped. Whether that is logged, and as which.
    UnknownType((bool, u64)),
    /// A call packet.
    CallPacket(MediaStep),
}

/// A datagram that has been dealt with.
#[derive(Debug)]
pub struct DatagramStep {
    pub kind: DatagramKind,
    /// How many datagrams there have been.
    pub total: u64,
    /// Whether the total is worth a line in the log, the first datagram aside.
    pub milestone: bool,
}

impl MediaCounters {
    /// The counters once one more datagram has come.
    pub open spec fn after_arrival(self) -> MediaCounters {
        MediaCounters { total: count_after(self.total), ..self }
    }
}

/// Deals with a datagram that has come in: passes it over, drops it, or treats
/// it as a call packet.
pub fn receive_datagram(state: &ServerState, counters: &mut MediaCounters, data: &[u8]) -> (r:
    DatagramStep)
    requires
        state@.wf(),
    ensures
        ({
            let c = old(counters).after_arrival();
            &&& r.total == c.total
            &&& r.milestone == (c.total != 1 && c.total % TOTAL_LOG_EVERY == 0)
            &&& if data@.len() == 0 {
                r.kind is Empty && *final(counters) == c
            } else if data@.len() > MAX_DATAGRAM {
                let n = count_after(c.oversized);
                &&& r.kind == DatagramKind::Oversized((logged(n), n))
                &&& *final(counters) == (MediaCounters { oversized: n, ..c })
            } else if data@[0] != DG_CALL_PACKET {
                let n = count_after(c.unknown_type);
                &&& r.kind == DatagramKind::UnknownType((logged(n), n))
                &&& *final(counters) == (MediaCounters { unknown_type: n, ..c })
            } else {
                let fate = state@.packet_fate(data@);
                let after = c.after_packet(fate);
                &&& r.kind is CallPacket
                &&& r.kind->CallPacket_0.outcome@ == fate
                &&& r.kind->CallPacket_0.rx == (logged(after.rx), after.rx)
                &&& r.kind->CallPacket_0.note == (
                    logged(after.of_fate(fate)),
                    after.of_fate(fate),
                )
                &&& *final(counters) == after
            }
        }),
{
    let total: u64 = counters.total.wrapping_add(1);
    counters.total = total;
    let milestone: bool = total != 1 && total % TOTAL_LOG_EVERY == 0;
    let kind: DatagramKind = if data.is_empty() {
        DatagramKind::Empty
    } else if data.len() > MAX_DATAGRAM {
        DatagramKind::Oversized(should_log(&mut counters.oversized))
    } else if data[0] != DG_CALL_PACKET {
        DatagramKind::UnknownType(should_log(&mut counters.unknown_type))
    } else {
        DatagramKind::CallPacket(handle_call_packet(state, counters, data))
    };
    DatagramStep { kind, total, milestone }
}

} // verus!
