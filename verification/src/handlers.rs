//! What each control command does to the server, and what is sent on it.

use vstd::prelude::*;
use vstd::slice::*;
use vstd::string::*;
use vstd::utf8::*;

use crate::bytes::{as_array, same_bytes};
use crate::constants::{
    CMD_CALL_CREATE, CMD_CALL_CREATE_ACK, CMD_CALL_JOIN, CMD_CALL_JOIN_ACK, CMD_CALL_LEAVE,
    CMD_CALL_PARTICIPANT_EVENT, CMD_CALL_PARTICIPANT_UPDATE, CMD_ERROR, CMD_HELLO, CMD_HELLO_ACK,
    ERR_MODE_UNSUPPORTED, ERR_UNKNOWN_SESSION, EVT_JOINED, EVT_LEFT,
    MAX_ASC_LEN, MAX_DISPLAY_NAME_LEN, PUBKEY_LEN, SESSION_ID_LEN,
};
use crate::keyed::{self, Keyed};
use crate::protocol::{
    self, build_create_ack, build_error, build_join_ack, build_participant_event,
    build_participant_update, ParticipantInfo, ParticipantView,
};
use crate::server::{
    self, ControlId, Effect, EffectModel, MemberModel, ServerModel, ServerState,
};
use crate::session::{
    CallMode, CallSession, Clock, Participant, ParticipantModel, PubKey,
    SessionId, SessionModel,
};
use crate::text::{self, hex_encode, push_decimal, push_hex_byte};
use crate::tlv::{
    self, parse_tlvs, tlv_get_bytes, tlv_get_string, tlv_get_u8, TlvMap, TAG_AUDIO_CONFIG,
    TAG_DISPLAY_NAME, TAG_IDENTITY_PUBKEY, TAG_MODE, TAG_SESSION_ID,
};

verus! {

/// A step of the server: the state after it, and what is to be sent.
pub type Step = (ServerModel, Seq<EffectModel>);

// ── Notices to participants ──────────────────────────────────────────────

/// What the others are told of a participant.
pub open spec fn info(p: ParticipantModel) -> ParticipantInfo {
    ParticipantInfo {
        pubkey: p.pubkey,
        display_name: p.display_name,
        audio_config: p.audio_config,
        joined_at: p.joined_at,
    }
}

/// What the others are told of each participant.
pub open spec fn infos_of(ps: Seq<ParticipantModel>) -> Seq<ParticipantInfo> {
    ps.map_values(|p: ParticipantModel| info(p))
}

impl ServerModel {
    /// The live control streams of the participants `ps` of a session, in order,
    /// without that of `exclude`.
    pub open spec fn streams_of(
        self,
        session: Seq<u8>,
        ps: Seq<ParticipantModel>,
        exclude: Option<Seq<u8>>,
    ) -> Seq<ControlId>
        decreases ps.len(),
    {
        if ps.len() == 0 {
            Seq::empty()
        } else {
            let before = self.streams_of(session, ps.drop_last(), exclude);
            let pk = ps.last().pubkey;
            if exclude == Some(pk) {
                before
            } else {
                match self.owner(session, pk) {
                    Some(cid) => if self.live(cid) {
                        before.push(cid)
                    } else {
                        before
                    },
                    None => before,
                }
            }
        }
    }

    /// The notices of a join or leave: one to the stream of each participant.
    pub open spec fn event_notices(
        self,
        s: SessionModel,
        event: u8,
        pubkey: Seq<u8>,
        display_name: Seq<char>,
        exclude: Option<Seq<u8>>,
    ) -> Seq<EffectModel> {
        let body = tlv::payload(protocol::event_records(s.id, event, pubkey, display_name));
        self.streams_of(s.id, s.participants, exclude).map_values(
            |to: ControlId| EffectModel::Send { to, cmd: CMD_CALL_PARTICIPANT_EVENT, body },
        )
    }

    /// The participant list for `target`, on the stream that owns it.
    pub open spec fn list_notice(self, s: SessionModel, target: Seq<u8>) -> Seq<EffectModel> {
        match self.owner(s.id, target) {
            Some(to) => if self.live(to) {
                seq![
                    EffectModel::Send {
                        to,
                        cmd: CMD_CALL_PARTICIPANT_UPDATE,
                        body: protocol::update_payload(s.id, infos_of(s.participants)),
                    },
                ]
            } else {
                Seq::empty()
            },
            None => Seq::empty(),
        }
    }
}

/// Sends the participant list of a session to the stream of `target_pub`.
fn push_participant_update(
    state: &ServerState,
    session: &CallSession,
    target_pub: &PubKey,
    out: &mut Vec<Effect>,
)
    requires
        state@.wf(),
    ensures
        server::effect_models(final(out)@) == server::effect_models(old(out)@)
            + state@.list_notice(session@, target_pub@),
{
    let mut views: Vec<ParticipantView<'_>> = Vec::new();
    let mut i: usize = 0;
    while i < session.participants.len()
        invariant
            i <= session.participants@.len(),
            views@.len() == i,
            forall|j: int| 0 <= j < i ==> (#[trigger] views@[j])@ == info(session@.participants[j]),
        decreases session.participants@.len() - i,
    {
        let p: &Participant = &session.participants[i];
        views.push(
            ParticipantView {
                pubkey: &p.pubkey,
                display_name: p.display_name.as_str(),
                audio_config: p.audio_config.as_slice(),
                joined_at: p.joined_at,
            },
        );
        i = i + 1;
    }
    assert(protocol::infos(views@) =~= infos_of(session@.participants));
    let body: Vec<u8> = build_participant_update(&session.id, views.as_slice());
    let ghost before = server::effect_models(out@);
    match state.owner_of(&session.id, target_pub) {
        Some(to) => {
            if state.is_live(to) {
                let e: Effect = Effect::Send { to, cmd: CMD_CALL_PARTICIPANT_UPDATE, body };
                proof {
                    server::lemma_effects_push(out@, e);
                }
                out.push(e);
                assert(before.push(e@) =~= before + state@.list_notice(session@, target_pub@));
                return;
            }
        },
        None => {},
    }
    assert(before =~= before + state@.list_notice(session@, target_pub@));
}

/// Sends notice of a join or leave to the stream of each participant.
fn broadcast_event(
    state: &ServerState,
    session: &CallSession,
    event: u8,
    pubkey: &PubKey,
    display_name: &str,
    exclude_pub: Option<PubKey>,
    out: &mut Vec<Effect>,
)
    requires
        state@.wf(),
    ensures
        server::effect_models(final(out)@) == server::effect_models(old(out)@)
            + state@.event_notices(
            session@,
            event,
            pubkey@,
            display_name@,
            match exclude_pub {
                Some(pk) => Some(pk@),
                None => None,
            },
        ),
{
    let body: Vec<u8> = build_participant_event(&session.id, event, pubkey, display_name);
    let ghost exclude: Option<Seq<u8>> = match exclude_pub {
        Some(pk) => Some(pk@),
        None => None,
    };
    let ghost ps = session@.participants;
    let ghost before = server::effect_models(out@);
    let ghost notice = |to: ControlId| EffectModel::Send {
        to,
        cmd: CMD_CALL_PARTICIPANT_EVENT,
        body: body@,
    };
    let mut i: usize = 0;
    proof {
        assert(ps.take(0) =~= Seq::<ParticipantModel>::empty());
        assert(before =~= before + state@.streams_of(
            session@.id,
            ps.take(0),
            exclude,
        ).map_values(notice));
    }
    while i < session.participants.len()
        invariant
            i <= session.participants@.len(),
            ps == session@.participants,
            state@.wf(),
            exclude == (match exclude_pub {
                Some(pk) => Some(pk@),
                None => None,
            }),
            notice == (|to: ControlId| EffectModel::Send {
                to,
                cmd: CMD_CALL_PARTICIPANT_EVENT,
                body: body@,
            }),
            server::effect_models(out@) == before + state@.streams_of(
                session@.id,
                ps.take(i as int),
                exclude,
            ).map_values(notice),
        decreases session.participants@.len() - i,
    {
        let pk: &PubKey = &session.participants[i].pubkey;
        let ghost here = state@.streams_of(session@.id, ps.take(i as int), exclude);
        proof {
            assert(ps.take(i + 1).drop_last() =~= ps.take(i as int));
            assert(ps.take(i + 1).last() == ps[i as int]);
            assert(ps[i as int].pubkey == pk@);
        }
        let excluded: bool = match &exclude_pub {
            Some(x) => same_bytes(x, pk),
            None => false,
        };
        if !excluded {
            match state.owner_of(&session.id, pk) {
                Some(to) => {
                    if state.is_live(to) {
                        let copy: Vec<u8> = slice_to_vec(body.as_slice());
                        let e: Effect = Effect::Send {
                            to,
                            cmd: CMD_CALL_PARTICIPANT_EVENT,
                            body: copy,
                        };
                        proof {
                            server::lemma_effects_push(out@, e);
                            assert(e@ == notice(to));
                            assert((before + here.map_values(notice)).push(e@) =~= before
                                + here.push(to).map_values(notice));
                        }
                        out.push(e);
                    }
                },
                None => {},
            }
        }
        i = i + 1;
    }
    assert(ps.take(ps.len() as int) =~= ps);
}

// ── Requests ─────────────────────────────────────────────────────────────

/// The values of a request body, or the complaint about it.
pub open spec fn read_body(body: Seq<u8>) -> Result<Map<u8, Seq<u8>>, Seq<char>> {
    match tlv::parse_records(body) {
        Ok(records) => Ok(tlv::last_values(records)),
        Err(e) => Err("bad tlv: "@ + e.text()),
    }
}

/// Reads a request body.
fn parse_body(body: &[u8]) -> (r: Result<TlvMap, String>)
    ensures
        match r {
            Ok(m) => read_body(body@) == Ok::<Map<u8, Seq<u8>>, Seq<char>>(tlv::map_view(m)),
            Err(e) => read_body(body@) == Err::<Map<u8, Seq<u8>>, Seq<char>>(e@),
        },
{
    match parse_tlvs(body) {
        Ok(m) => Ok(m),
        Err(e) => {
            let mut s: String = "bad tlv: ".to_owned();
            let text: String = e.message();
            s.append(text.as_str());
            Err(s)
        },
    }
}

/// One reply.
pub open spec fn reply(cmd: u8, body: Seq<u8>) -> Seq<EffectModel> {
    seq![EffectModel::Reply { cmd, body }]
}

/// A reply that turns a request down.
pub open spec fn error_reply(code: u8, msg: Seq<char>) -> Seq<EffectModel> {
    reply(CMD_ERROR, tlv::payload(protocol::error_records(code, msg)))
}

fn push_reply(out: &mut Vec<Effect>, cmd: u8, body: Vec<u8>)
    ensures
        server::effect_models(final(out)@) == server::effect_models(old(out)@) + reply(cmd, body@),
{
    let e: Effect = Effect::Reply { cmd, body };
    proof {
        server::lemma_effects_push(out@, e);
        assert(server::effect_models(out@).push(e@) =~= server::effect_models(out@) + reply(
            cmd,
            body@,
        ));
    }
    out.push(e);
}

/// A list that holds one reply.
fn one_reply(cmd: u8, body: Vec<u8>) -> (r: Vec<Effect>)
    ensures
        server::effect_models(r@) == reply(cmd, body@),
{
    let mut out: Vec<Effect> = Vec::new();
    assert(server::effect_models(out@) =~= Seq::<EffectModel>::empty());
    push_reply(&mut out, cmd, body);
    assert(server::effect_models(out@) =~= reply(cmd, body@));
    out
}

// ── Hello ────────────────────────────────────────────────────────────────

/// The answer to a version probe: an empty payload. The version is in the header
/// of the frame that carries it.
fn handle_hello() -> (r: Vec<Effect>)
    ensures
        server::effect_models(r@) == reply(CMD_HELLO_ACK, Seq::empty()),
        forall|i: int|
            0 <= i < r@.len() ==> tlv::parse_records((#[trigger] r@[i])@.body()) == Ok::<
                Seq<tlv::Record>,
                tlv::TlvError,
            >(Seq::empty()),
{
    let r: Vec<Effect> = one_reply(CMD_HELLO_ACK, Vec::new());
    proof {
        assert(server::effect_models(r@).len() == r@.len());
        assert(r@[0]@ == server::effect_models(r@)[0]);
        assert(r@[0]@.body() =~= Seq::<u8>::empty());
    }
    r
}

// ── Create ───────────────────────────────────────────────────────────────

/// The mode that a create request asks for.
pub open spec fn create_request(body: Seq<u8>) -> Result<CallMode, Seq<char>> {
    match read_body(body) {
        Err(e) => Err(e),
        Ok(m) => match tlv::get_number(m, TAG_MODE, 1) {
            Err(e) => Err(e),
            Ok(b) => match CallMode::of_wire(b as u8) {
                None => Err("bad mode "@ + text::decimal(b)),
                Some(mode) => Ok(mode),
            },
        },
    }
}

fn read_create(body: &[u8]) -> (r: Result<CallMode, String>)
    ensures
        match r {
            Ok(mode) => create_request(body@) == Ok::<CallMode, Seq<char>>(mode),
            Err(e) => create_request(body@) == Err::<CallMode, Seq<char>>(e@),
        },
{
    let m: TlvMap = match parse_body(body) {
        Ok(m) => m,
        Err(e) => {
            return Err(e);
        },
    };
    let b: u8 = match tlv_get_u8(&m, TAG_MODE) {
        Ok(b) => b,
        Err(e) => {
            return Err(e);
        },
    };
    match CallMode::from_wire(b) {
        Some(mode) => Ok(mode),
        None => {
            let mut s: String = "bad mode ".to_owned();
            push_decimal(&mut s, b as u64);
            Err(s)
        },
    }
}

impl ServerModel {
    /// A create request, where `id` is the id for a new session.
    pub open spec fn create_step(self, body: Seq<u8>, clock: Clock, id: Seq<u8>) -> Result<
        Step,
        Seq<char>,
    > {
        match create_request(body) {
            Err(e) => Err(e),
            Ok(mode) => if self.registry.supports(mode) {
                Ok(
                    (
                        self.with_session(SessionModel::fresh(id, mode, clock)),
                        reply(
                            CMD_CALL_CREATE_ACK,
                            tlv::encode_records(
                                protocol::create_ack_records(id, mode.wire(), clock.unix),
                            ),
                        ),
                    ),
                )
            } else {
                Ok((self, error_reply(ERR_MODE_UNSUPPORTED, "mode unsupported"@)))
            },
        }
    }
}

/// What a step that may refuse its input did.
pub open spec fn outcome(
    before: ServerModel,
    after: ServerModel,
    r: Result<Vec<Effect>, String>,
    step: Result<Step, Seq<char>>,
) -> bool {
    match step {
        Ok((state, effects)) => r is Ok && after == state && server::effect_models(r->Ok_0@)
            == effects,
        Err(text) => r is Err && after == before && r->Err_0@ == text,
    }
}

/// Carries out a create request; the session gets the id `id`.
fn handle_call_create_with_id(
    state: &mut ServerState,
    body: &[u8],
    clock: Clock,
    id: SessionId,
) -> (r: Result<Vec<Effect>, String>)
    requires
        old(state)@.wf(),
    ensures
        final(state)@.wf(),
        outcome(
            old(state)@,
            final(state)@,
            r,
            old(state)@.create_step(body@, clock, id@),
        ),
{
    let mode: CallMode = match read_create(body) {
        Ok(mode) => mode,
        Err(e) => {
            return Err(e);
        },
    };
    match state.registry.create_with_id(id, mode, clock) {
        Ok(_) => Ok(
            one_reply(CMD_CALL_CREATE_ACK, build_create_ack(&id, mode.to_wire(), clock.unix)),
        ),
        Err(code) => Ok(one_reply(CMD_ERROR, build_error(code, "mode unsupported"))),
    }
}

/// Carries out a create request; the session gets a random id.
fn handle_call_create(state: &mut ServerState, body: &[u8], clock: Clock) -> (r: Result<
    Vec<Effect>,
    String,
>)
    requires
        old(state)@.wf(),
    ensures
        final(state)@.wf(),
        exists|id: SessionId|
            outcome(
                old(state)@,
                final(state)@,
                r,
                old(state)@.create_step(body@, clock, #[trigger] id@),
            ),
{
    let ghost any: SessionId = [0u8; SESSION_ID_LEN];
    let mode: CallMode = match read_create(body) {
        Ok(mode) => mode,
        Err(e) => {
            let r: Result<Vec<Effect>, String> = Err(e);
            assert(outcome(old(state)@, state@, r, old(state)@.create_step(body@, clock, any@)));
            return r;
        },
    };
    match state.registry.create(mode, clock) {
        Ok(id) => {
            let r: Result<Vec<Effect>, String> = Ok(
                one_reply(CMD_CALL_CREATE_ACK, build_create_ack(&id, mode.to_wire(), clock.unix)),
            );
            assert(outcome(old(state)@, state@, r, old(state)@.create_step(body@, clock, id@)));
            r
        },
        Err(code) => {
            let r: Result<Vec<Effect>, String> = Ok(
                one_reply(CMD_ERROR, build_error(code, "mode unsupported")),
            );
            assert(outcome(old(state)@, state@, r, old(state)@.create_step(body@, clock, any@)));
            r
        },
    }
}

// ── Join ─────────────────────────────────────────────────────────────────

/// What a join request asks for.
struct JoinRequest {
    session_id: SessionId,
    identity: PubKey,
    display_name: String,
    audio_config: Vec<u8>,
}

/// What a join request asks for, as plain values.
pub struct JoinModel {
    pub session_id: Seq<u8>,
    pub identity: Seq<u8>,
    pub display_name: Seq<char>,
    pub audio_config: Seq<u8>,
}

/// Reads a join request that came from `remote`. A client that does not
/// advertise an identity goes by its routing key, and one that gives no readable
/// name by the first digits of its identity.
pub open spec fn join_request(body: Seq<u8>, remote: Seq<u8>) -> Result<JoinModel, Seq<char>> {
    match read_body(body) {
        Err(e) => Err(e),
        Ok(m) => match tlv::get_bytes(m, TAG_SESSION_ID, SESSION_ID_LEN as nat) {
            Err(e) => Err(e),
            Ok(session_id) => {
                let identity = match tlv::get_bytes(m, TAG_IDENTITY_PUBKEY, PUBKEY_LEN as nat) {
                    Ok(pk) => pk,
                    Err(_) => remote,
                };
                let display_name = match tlv::get_text(m, TAG_DISPLAY_NAME) {
                    Ok(name) => name,
                    Err(_) => text::hex_lower(identity.take(4)),
                };
                let audio_config = match tlv::get_bytes(m, TAG_AUDIO_CONFIG, 0) {
                    Ok(config) => config,
                    Err(_) => Seq::empty(),
                };
                if encode_utf8(display_name).len() > MAX_DISPLAY_NAME_LEN {
                    Err("display name too long"@)
                } else if audio_config.len() > MAX_ASC_LEN {
                    Err("audio_config too long"@)
                } else {
                    Ok(JoinModel { session_id, identity, display_name, audio_config })
                }
            },
        },
    }
}

impl JoinRequest {
    spec fn model(self) -> JoinModel {
        JoinModel {
            session_id: self.session_id@,
            identity: self.identity@,
            display_name: self.display_name@,
            audio_config: self.audio_config@,
        }
    }
}

fn read_join(body: &[u8], remote_pub: &PubKey) -> (r: Result<JoinRequest, String>)
    ensures
        match r {
            Ok(req) => join_request(body@, remote_pub@) == Ok::<JoinModel, Seq<char>>(req.model()),
            Err(e) => join_request(body@, remote_pub@) == Err::<JoinModel, Seq<char>>(e@),
        },
{
    let m: TlvMap = match parse_body(body) {
        Ok(m) => m,
        Err(e) => {
            return Err(e);
        },
    };
    let session_id: SessionId = match tlv_get_bytes(&m, TAG_SESSION_ID, SESSION_ID_LEN) {
        Ok(b) => *as_array(b),
        Err(e) => {
            return Err(e);
        },
    };
    let identity: PubKey = match tlv_get_bytes(&m, TAG_IDENTITY_PUBKEY, PUBKEY_LEN) {
        Ok(b) => *as_array(b),
        Err(_) => *remote_pub,
    };
    let display_name: String = match tlv_get_string(&m, TAG_DISPLAY_NAME) {
        Ok(name) => name,
        Err(_) => {
            let start: &[u8] = slice_subrange(identity.as_slice(), 0, 4);
            assert(start@ =~= identity@.take(4));
            hex_encode(start)
        },
    };
    if display_name.as_str().as_bytes().len() > MAX_DISPLAY_NAME_LEN {
        return Err("display name too long".to_owned());
    }
    let audio_config: Vec<u8> = match tlv_get_bytes(&m, TAG_AUDIO_CONFIG, 0) {
        Ok(b) => slice_to_vec(b),
        Err(_) => Vec::new(),
    };
    if audio_config.len() > MAX_ASC_LEN {
        return Err("audio_config too long".to_owned());
    }
    Ok(JoinRequest { session_id, identity, display_name, audio_config })
}

/// What a client is told when it cannot join.
pub open spec fn refusal_text(code: u8) -> Seq<char> {
    if code == ERR_UNKNOWN_SESSION {
        "unknown session"@
    } else {
        "session full"@
    }
}

impl JoinModel {
    /// The participant that a join request makes of the client on stream `cid`.
    pub open spec fn participant(
        self,
        cid: ControlId,
        remote: Seq<u8>,
        clock: Clock,
    ) -> ParticipantModel {
        ParticipantModel {
            pubkey: self.identity,
            ygg_pubkey: remote,
            display_name: self.display_name,
            audio_config: self.audio_config,
            joined_at: clock.unix,
            control_id: cid,
        }
    }
}

impl ServerModel {
    /// The state once `p` has joined the session `s`.
    pub open spec fn with_joined(self, s: SessionModel, p: ParticipantModel) -> ServerModel {
        ServerModel {
            registry: self.registry.with(s.joined(p)),
            members: keyed::put(
                self.members,
                MemberModel { session: s.id, pubkey: p.pubkey, owner: p.control_id },
            ),
            ..self
        }
    }

    /// A join request on stream `cid`, from a peer that authenticated with
    /// `remote`.
    pub open spec fn join_step(
        self,
        cid: ControlId,
        remote: Seq<u8>,
        body: Seq<u8>,
        clock: Clock,
    ) -> Result<Step, Seq<char>> {
        match join_request(body, remote) {
            Err(e) => Err(e),
            Ok(req) => match self.registry.refusal(req.session_id, req.identity) {
                Some(code) => Ok((self, error_reply(code, refusal_text(code)))),
                None => {
                    let s = self.registry.session(req.session_id)->Some_0;
                    let p = req.participant(cid, remote, clock);
                    let after = self.with_joined(s, p);
                    let ack = tlv::encode_records(
                        protocol::join_ack_records(req.session_id, s.mode.wire()),
                    );
                    Ok(
                        (
                            after,
                            reply(CMD_CALL_JOIN_ACK, ack) + after.list_notice(
                                s.joined(p),
                                req.identity,
                            ) + after.event_notices(
                                s.joined(p),
                                EVT_JOINED,
                                req.identity,
                                req.display_name,
                                None,
                            ),
                        ),
                    )
                },
            },
        }
    }
}

fn handle_call_join(
    state: &mut ServerState,
    cid: ControlId,
    remote_pub: &PubKey,
    body: &[u8],
    clock: Clock,
) -> (r: Result<Vec<Effect>, String>)
    requires
        old(state)@.wf(),
    ensures
        final(state)@.wf(),
        outcome(
            old(state)@,
            final(state)@,
            r,
            old(state)@.join_step(cid, remote_pub@, body@, clock),
        ),
{
    let req: JoinRequest = match read_join(body, remote_pub) {
        Ok(req) => req,
        Err(e) => {
            return Err(e);
        },
    };
    let session_id: SessionId = req.session_id;
    let identity: PubKey = req.identity;
    let name: String = req.display_name.clone();
    let p: Participant = Participant {
        pubkey: identity,
        ygg_pubkey: *remote_pub,
        display_name: req.display_name,
        audio_config: req.audio_config,
        joined_at: clock.unix,
        control_id: cid,
    };
    let ghost s = state@.registry.session(session_id@)->Some_0;
    let mode: CallMode = match state.registry.add_participant(&session_id, p) {
        Ok(mode) => mode,
        Err(code) => {
            let text: &'static str = if code == ERR_UNKNOWN_SESSION {
                "unknown session"
            } else {
                "session full"
            };
            return Ok(one_reply(CMD_ERROR, build_error(code, text)));
        },
    };
    state.set_owner(&session_id, &identity, cid);
    proof {
        keyed::lemma_found(old(state)@.registry.sessions, session_id@);
        keyed::put_then_lookup(old(state)@.registry.sessions, s.joined(p@), session_id@);
        assert(state@ =~= old(state)@.with_joined(s, p@));
    }
    let mut out: Vec<Effect> = one_reply(
        CMD_CALL_JOIN_ACK,
        build_join_ack(&session_id, mode.to_wire()),
    );
    match state.registry.get(&session_id) {
        Some(session) => {
            push_participant_update(state, session, &identity, &mut out);
            broadcast_event(
                state,
                session,
                EVT_JOINED,
                &identity,
                name.as_str(),
                None,
                &mut out,
            );
        },
        None => {},
    }
    Ok(out)
}

// ── Leave ────────────────────────────────────────────────────────────────

/// A participant of a session, by keys.
pub type MemberKey = (Seq<u8>, Seq<u8>);

impl ServerModel {
    /// The state once `pubkey` has left the session `s`.
    pub open spec fn with_left(self, s: SessionModel, pubkey: Seq<u8>, now: u64) -> ServerModel {
        ServerModel {
            registry: self.registry.with(s.left(pubkey, now)),
            members: keyed::without(self.members, (s.id, pubkey)),
            ..self
        }
    }

    /// Takes a participant out of a session and tells the others. Nothing is
    /// done where there is no such participant, or where `only_owner` is given
    /// and another stream owns it.
    pub open spec fn removal_step(
        self,
        session: Seq<u8>,
        pubkey: Seq<u8>,
        only_owner: Option<ControlId>,
        now: u64,
    ) -> Step {
        match self.registry.session(session) {
            None => (self, Seq::empty()),
            Some(s) => {
                let kept = match (only_owner, self.owner(session, pubkey)) {
                    (Some(want), Some(have)) => have != want,
                    _ => false,
                };
                if kept || !s.has(pubkey) {
                    (self, Seq::empty())
                } else {
                    let name = keyed::lookup(s.participants, pubkey)->Some_0.display_name;
                    let after = self.with_left(s, pubkey, now);
                    (after, after.event_notices(s.left(pubkey, now), EVT_LEFT, pubkey, name, None))
                }
            },
        }
    }

    /// Takes out the participants `keys` that `cid` owns, one after the other.
    pub open spec fn removals_step(self, keys: Seq<MemberKey>, cid: ControlId, now: u64) -> Step
        decreases keys.len(),
    {
        if keys.len() == 0 {
            (self, Seq::empty())
        } else {
            let (before, effects) = self.removals_step(keys.drop_last(), cid, now);
            let (after, more) = before.removal_step(
                keys.last().0,
                keys.last().1,
                Some(cid),
                now,
            );
            (after, effects + more)
        }
    }

    /// The participants that `cid` owns, in the session `only` or in all.
    pub open spec fn owned_by(self, cid: ControlId, only: Option<Seq<u8>>) -> Seq<MemberKey> {
        self.members.filter(
            |m: MemberModel| m.owner == cid && (only is None || only == Some(m.session)),
        ).map_values(|m: MemberModel| m.key())
    }
}

/// Takes a participant out of a session and tells the others.
fn remove_member(
    state: &mut ServerState,
    session_id: &SessionId,
    pubkey: &PubKey,
    only_if_owner_cid: Option<ControlId>,
    now: u64,
    out: &mut Vec<Effect>,
)
    requires
        old(state)@.wf(),
    ensures
        final(state)@.wf(),
        ({
            let (after, effects) = old(state)@.removal_step(
                session_id@,
                pubkey@,
                only_if_owner_cid,
                now,
            );
            &&& final(state)@ == after
            &&& server::effect_models(final(out)@) == server::effect_models(old(out)@) + effects
        }),
{
    let ghost found = state@.registry.session(session_id@);
    assert(server::effect_models(out@) =~= server::effect_models(out@) + Seq::empty());
    if state.registry.get(session_id).is_none() {
        return;
    }
    match (only_if_owner_cid, state.owner_of(session_id, pubkey)) {
        (Some(want), Some(have)) => {
            if have != want {
                return;
            }
        },
        _ => {},
    }
    let ghost s = found->Some_0;
    proof {
        keyed::lemma_found(state@.registry.sessions, session_id@);
        keyed::put_then_lookup(state@.registry.sessions, s.left(pubkey@, now), session_id@);
    }
    let name: String = match state.registry.remove_participant(session_id, pubkey, now) {
        Some(name) => name,
        None => {
            return;
        },
    };
    state.drop_owner(session_id, pubkey);
    assert(state@ =~= old(state)@.with_left(s, pubkey@, now));
    match state.registry.get(session_id) {
        Some(session) => {
            broadcast_event(state, session, EVT_LEFT, pubkey, name.as_str(), None, out);
        },
        None => {},
    }
}

/// The models of a list of member keys.
pub open spec fn key_models(keys: Seq<(SessionId, PubKey)>) -> Seq<MemberKey> {
    keys.map_values(|k: (SessionId, PubKey)| (k.0@, k.1@))
}

/// The participants that `cid` owns, in the session `only` or in all.
pub fn owned_members(state: &ServerState, cid: ControlId, only: Option<SessionId>) -> (r: Vec<
    (SessionId, PubKey),
>)
    ensures
        key_models(r@) == state@.owned_by(
            cid,
            match only {
                Some(id) => Some(id@),
                None => None,
            },
        ),
{
    let ghost session: Option<Seq<u8>> = match only {
        Some(id) => Some(id@),
        None => None,
    };
    let ghost wanted = |m: MemberModel|
        m.owner == cid && (session is None || session == Some(m.session));
    let ghost to_key = |m: MemberModel| m.key();
    let ghost all = state@.members;
    let mut r: Vec<(SessionId, PubKey)> = Vec::new();
    let mut i: usize = 0;
    proof {
        reveal(Seq::filter);
        assert(all.take(0) =~= Seq::<MemberModel>::empty());
        assert(key_models(r@) =~= all.take(0).filter(wanted).map_values(to_key));
    }
    while i < state.streams.member_count()
        invariant
            i <= all.len(),
            all == state@.members,
            session == (match only {
                Some(id) => Some(id@),
                None => None,
            }),
            wanted == (|m: MemberModel|
                m.owner == cid && (session is None || session == Some(m.session))),
            to_key == (|m: MemberModel| m.key()),
            key_models(r@) == all.take(i as int).filter(wanted).map_values(to_key),
        decreases all.len() - i,
    {
        let m: &server::Member = state.streams.member(i);
        let ghost before = all.take(i as int).filter(wanted);
        proof {
            reveal(Seq::filter);
            assert(all.take(i + 1).drop_last() =~= all.take(i as int));
            assert(all.take(i + 1).last() == m@);
        }
        let here: bool = match &only {
            Some(id) => same_bytes(id, &m.session),
            None => true,
        };
        if m.owner == cid && here {
            let key: (SessionId, PubKey) = (m.session, m.pubkey);
            proof {
                assert(key_models(r@.push(key)) =~= key_models(r@).push(m@.key()));
                assert(before.push(m@).map_values(to_key) =~= before.map_values(to_key).push(
                    m@.key(),
                ));
            }
            r.push(key);
        }
        i = i + 1;
    }
    assert(all.take(all.len() as int) =~= all);
    r
}

/// Takes out the participants `keys` that `cid` owns, one after the other.
fn remove_members(
    state: &mut ServerState,
    keys: &Vec<(SessionId, PubKey)>,
    cid: ControlId,
    now: u64,
) -> (r: Vec<Effect>)
    requires
        old(state)@.wf(),
    ensures
        final(state)@.wf(),
        (final(state)@, server::effect_models(r@)) == old(state)@.removals_step(
            key_models(keys@),
            cid,
            now,
        ),
{
    let ghost all = key_models(keys@);
    let ghost start = state@;
    let mut out: Vec<Effect> = Vec::new();
    let mut i: usize = 0;
    proof {
        assert(all.take(0) =~= Seq::<MemberKey>::empty());
        assert(server::effect_models(out@) =~= Seq::<EffectModel>::empty());
    }
    while i < keys.len()
        invariant
            i <= keys@.len(),
            all == key_models(keys@),
            state@.wf(),
            (state@, server::effect_models(out@)) == start.removals_step(
                all.take(i as int),
                cid,
                now,
            ),
        decreases keys@.len() - i,
    {
        proof {
            assert(all.take(i + 1).drop_last() =~= all.take(i as int));
            assert(all.take(i + 1).last() == (keys@[i as int].0@, keys@[i as int].1@));
        }
        remove_member(state, &keys[i].0, &keys[i].1, Some(cid), now, &mut out);
        i = i + 1;
    }
    assert(all.take(all.len() as int) =~= all);
    out
}

/// The session that a leave request names.
pub open spec fn leave_request(body: Seq<u8>) -> Result<Seq<u8>, Seq<char>> {
    match read_body(body) {
        Err(e) => Err(e),
        Ok(m) => tlv::get_bytes(m, TAG_SESSION_ID, SESSION_ID_LEN as nat),
    }
}

impl ServerModel {
    /// A leave request on stream `cid`: every participant of the session that
    /// the stream owns goes.
    pub open spec fn leave_step(self, cid: ControlId, body: Seq<u8>, clock: Clock) -> Result<
        Step,
        Seq<char>,
    > {
        match leave_request(body) {
            Err(e) => Err(e),
            Ok(session) => Ok(
                self.removals_step(self.owned_by(cid, Some(session)), cid, clock.monotonic),
            ),
        }
    }

    /// The end of stream `cid`: every participant that it owns goes.
    pub open spec fn disconnect_step(self, cid: ControlId, now: u64) -> Step {
        self.removals_step(self.owned_by(cid, None), cid, now)
    }
}

fn handle_call_leave(state: &mut ServerState, cid: ControlId, body: &[u8], clock: Clock) -> (r:
    Result<Vec<Effect>, String>)
    requires
        old(state)@.wf(),
    ensures
        final(state)@.wf(),
        outcome(old(state)@, final(state)@, r, old(state)@.leave_step(cid, body@, clock)),
{
    let m: TlvMap = match parse_body(body) {
        Ok(m) => m,
        Err(e) => {
            return Err(e);
        },
    };
    let session_id: SessionId = match tlv_get_bytes(&m, TAG_SESSION_ID, SESSION_ID_LEN) {
        Ok(b) => *as_array(b),
        Err(e) => {
            return Err(e);
        },
    };
    let targets: Vec<(SessionId, PubKey)> = owned_members(state, cid, Some(session_id));
    Ok(remove_members(state, &targets, cid, clock.monotonic))
}

/// Takes out every participant that the stream `cid` owns, once it has ended.
pub fn on_control_disconnect(state: &mut ServerState, cid: ControlId, now: u64) -> (r: Vec<Effect>)
    requires
        old(state)@.wf(),
    ensures
        final(state)@.wf(),
        (final(state)@, server::effect_models(r@)) == old(state)@.disconnect_step(cid, now),
{
    let owned: Vec<(SessionId, PubKey)> = owned_members(state, cid, None);
    remove_members(state, &owned, cid, now)
}

// ── Dispatch ─────────────────────────────────────────────────────────────

impl ServerModel {
    /// A request on stream `cid`, from a peer that authenticated with `remote`.
    /// `id` is the id for a new session, should the request make one.
    pub open spec fn request_step(
        self,
        cid: ControlId,
        remote: Seq<u8>,
        cmd: u8,
        body: Seq<u8>,
        clock: Clock,
        id: Seq<u8>,
    ) -> Result<Step, Seq<char>> {
        if cmd == CMD_HELLO {
            Ok((self, reply(CMD_HELLO_ACK, Seq::empty())))
        } else if cmd == CMD_CALL_CREATE {
            self.create_step(body, clock, id)
        } else if cmd == CMD_CALL_JOIN {
            self.join_step(cid, remote, body, clock)
        } else if cmd == CMD_CALL_LEAVE {
            self.leave_step(cid, body, clock)
        } else {
            Err("unknown cmd 0x"@ + text::hex_byte(cmd))
        }
    }
}

/// Carries out a request; a session that it makes gets the id `id`.
pub fn dispatch_with_id(
    state: &mut ServerState,
    cid: ControlId,
    remote_pub: &PubKey,
    cmd: u8,
    body: &[u8],
    clock: Clock,
    id: SessionId,
) -> (r: Result<Vec<Effect>, String>)
    requires
        old(state)@.wf(),
    ensures
        final(state)@.wf(),
        outcome(
            old(state)@,
            final(state)@,
            r,
            old(state)@.request_step(cid, remote_pub@, cmd, body@, clock, id@),
        ),
{
    match cmd {
        CMD_HELLO => Ok(handle_hello()),
        CMD_CALL_CREATE => handle_call_create_with_id(state, body, clock, id),
        CMD_CALL_JOIN => handle_call_join(state, cid, remote_pub, body, clock),
        CMD_CALL_LEAVE => handle_call_leave(state, cid, body, clock),
        _ => {
            let mut s: String = "unknown cmd 0x".to_owned();
            push_hex_byte(&mut s, cmd);
            Err(s)
        },
    }
}

/// Carries out a request; a session that it makes gets a random id, which is
/// drawn only where one is made.
pub fn dispatch(
    state: &mut ServerState,
    cid: ControlId,
    remote_pub: &PubKey,
    cmd: u8,
    body: &[u8],
    clock: Clock,
) -> (r: Result<Vec<Effect>, String>)
    requires
        old(state)@.wf(),
    ensures
        final(state)@.wf(),
        exists|id: SessionId|
            outcome(
                old(state)@,
                final(state)@,
                r,
                old(state)@.request_step(cid, remote_pub@, cmd, body@, clock, #[trigger] id@),
            ),
{
    if cmd == CMD_CALL_CREATE {
        return handle_call_create(state, body, clock);
    }
    // No other request makes a session.
    let id: SessionId = [0u8; SESSION_ID_LEN];
    let r: Result<Vec<Effect>, String> = dispatch_with_id(
        state,
        cid,
        remote_pub,
        cmd,
        body,
        clock,
        id,
    );
    assert(outcome(
        old(state)@,
        state@,
        r,
        old(state)@.request_step(cid, remote_pub@, cmd, body@, clock, id@),
    ));
    r
}

// ── Time ─────────────────────────────────────────────────────────────────

impl ServerModel {
    /// Whether a request leaves a timestamp: whether it makes a session or a
    /// participant.
    pub open spec fn keeps_timestamp(self, remote: Seq<u8>, cmd: u8, body: Seq<u8>) -> bool {
        if cmd == CMD_CALL_CREATE {
            create_request(body) matches Ok(mode) && self.registry.supports(mode)
        } else if cmd == CMD_CALL_JOIN {
            join_request(body, remote) matches Ok(req) && self.registry.refusal(
                req.session_id,
                req.identity,
            ) is None
        } else {
            false
        }
    }
}

/// Whether a request leaves a timestamp, so that the time of day must be known
/// for it. No other request looks at `Clock::unix`.
pub fn keeps_timestamp(state: &ServerState, remote_pub: &PubKey, cmd: u8, body: &[u8]) -> (r: bool)
    requires
        state@.wf(),
    ensures
        r == state@.keeps_timestamp(remote_pub@, cmd, body@),
{
    match cmd {
        CMD_CALL_CREATE => match read_create(body) {
            Ok(mode) => state.registry.supports(mode),
            Err(_) => false,
        },
        CMD_CALL_JOIN => match read_join(body, remote_pub) {
            Ok(req) => state.registry.refusal(&req.session_id, &req.identity).is_none(),
            Err(_) => false,
        },
        _ => false,
    }
}

} // verus!
