//! Sessions, participants, and the removal of sessions that stay empty.

use vstd::prelude::*;

use crate::bytes::same_bytes;
use crate::constants::{
    EMPTY_SESSION_TTL_NANOS, ERR_MODE_UNSUPPORTED, ERR_SESSION_FULL, ERR_UNKNOWN_SESSION,
    MAX_PARTICIPANTS, MODE_MCU, MODE_SFU, PUBKEY_LEN, SESSION_ID_LEN,
};
use crate::keyed::{self, Keyed};

verus! {

pub type SessionId = [u8; SESSION_ID_LEN];

pub type PubKey = [u8; PUBKEY_LEN];

/// The readings of the clocks that a step of the server goes by.
#[derive(Clone, Copy, Debug)]
pub struct Clock {
    /// Seconds since the Unix epoch.
    pub unix: i64,
    /// Nanoseconds on a clock that never goes back.
    pub monotonic: u64,
}

// ── Participants ─────────────────────────────────────────────────────────

/// A member of a session.
#[derive(Clone, Debug)]
pub struct Participant {
    /// Permanent Ed25519 identity key: what the media datagrams name as the
    /// sender. A session has one participant for each.
    pub pubkey: PubKey,
    /// Ephemeral routing key that the control stream authenticated with; the
    /// address for datagrams that are forwarded to this participant.
    pub ygg_pubkey: PubKey,
    pub display_name: String,
    /// AAC AudioSpecificConfig bytes, empty if the participant sent none.
    pub audio_config: Vec<u8>,
    pub joined_at: i64,
    /// The control stream that owns this record. If it drops, the participant
    /// is evicted.
    pub control_id: u64,
}

/// A member of a session, as plain values.
#[verifier::ext_equal]
pub struct ParticipantModel {
    pub pubkey: Seq<u8>,
    pub ygg_pubkey: Seq<u8>,
    pub display_name: Seq<char>,
    pub audio_config: Seq<u8>,
    pub joined_at: i64,
    pub control_id: u64,
}

impl Keyed for ParticipantModel {
    type Key = Seq<u8>;

    open spec fn key(self) -> Seq<u8> {
        self.pubkey
    }
}

impl View for Participant {
    type V = ParticipantModel;

    open spec fn view(&self) -> ParticipantModel {
        ParticipantModel {
            pubkey: self.pubkey@,
            ygg_pubkey: self.ygg_pubkey@,
            display_name: self.display_name@,
            audio_config: self.audio_config@,
            joined_at: self.joined_at,
            control_id: self.control_id,
        }
    }
}

/// The models of a list of participants.
pub open spec fn participant_models(ps: Seq<Participant>) -> Seq<ParticipantModel> {
    ps.map_values(|p: Participant| p@)
}

// ── Modes ────────────────────────────────────────────────────────────────

#[derive(Clone, Copy, Debug, PartialEq, Eq, Structural)]
pub enum CallMode {
    Sfu,
    Mcu,
}

impl CallMode {
    /// The mode that a byte stands for.
    pub open spec fn of_wire(b: u8) -> Option<CallMode> {
        if b == MODE_SFU {
            Some(CallMode::Sfu)
        } else if b == MODE_MCU {
            Some(CallMode::Mcu)
        } else {
            None
        }
    }

    /// The byte that stands for a mode.
    pub open spec fn wire(self) -> u8 {
        match self {
            CallMode::Sfu => MODE_SFU,
            CallMode::Mcu => MODE_MCU,
        }
    }

    pub fn from_wire(b: u8) -> (r: Option<Self>)
        ensures
            r == CallMode::of_wire(b),
    {
        match b {
            MODE_SFU => Some(CallMode::Sfu),
            MODE_MCU => Some(CallMode::Mcu),
            _ => None,
        }
    }

    pub fn to_wire(self) -> (r: u8)
        ensures
            r == self.wire(),
    {
        match self {
            CallMode::Sfu => MODE_SFU,
            CallMode::Mcu => MODE_MCU,
        }
    }
}

/// The two readings of a mode undo each other: a mode comes back from its byte,
/// and a byte that stands for a mode comes back from the mode.
pub proof fn mode_roundtrip(m: CallMode, b: u8)
    ensures
        CallMode::of_wire(m.wire()) == Some(m),
        CallMode::of_wire(b) matches Some(n) ==> n.wire() == b,
{
}

// ── Sessions ─────────────────────────────────────────────────────────────

/// A call.
pub struct CallSession {
    pub id: SessionId,
    pub mode: CallMode,
    pub created_at: i64,
    /// In the order of joining.
    pub participants: Vec<Participant>,
    /// When the session last became empty, on the monotonic clock. `None` while
    /// it is occupied.
    pub empty_since: Option<u64>,
}

/// A call, as plain values.
#[verifier::ext_equal]
pub struct SessionModel {
    pub id: Seq<u8>,
    pub mode: CallMode,
    pub created_at: i64,
    pub participants: Seq<ParticipantModel>,
    pub empty_since: Option<u64>,
}

impl Keyed for SessionModel {
    type Key = Seq<u8>;

    open spec fn key(self) -> Seq<u8> {
        self.id
    }
}

impl View for CallSession {
    type V = SessionModel;

    open spec fn view(&self) -> SessionModel {
        SessionModel {
            id: self.id@,
            mode: self.mode,
            created_at: self.created_at,
            participants: participant_models(self.participants@),
            empty_since: self.empty_since,
        }
    }
}

impl SessionModel {
    /// A session that nobody has joined.
    pub open spec fn fresh(id: Seq<u8>, mode: CallMode, clock: Clock) -> SessionModel {
        SessionModel {
            id,
            mode,
            created_at: clock.unix,
            participants: Seq::empty(),
            empty_since: Some(clock.monotonic),
        }
    }

    /// No two participants share an identity, and there are not too many.
    pub open spec fn wf(self) -> bool {
        keyed::distinct(self.participants) && self.participants.len() <= MAX_PARTICIPANTS
    }

    /// Whether `pubkey` takes part.
    pub open spec fn has(self, pubkey: Seq<u8>) -> bool {
        keyed::holds(self.participants, pubkey)
    }

    /// Whether there is no room for `pubkey`.
    pub open spec fn full_for(self, pubkey: Seq<u8>) -> bool {
        self.participants.len() >= MAX_PARTICIPANTS && !self.has(pubkey)
    }

    /// The session once `p` has joined. A participant who was there already
    /// keeps the place in the order.
    pub open spec fn joined(self, p: ParticipantModel) -> SessionModel {
        SessionModel {
            participants: keyed::put(self.participants, p),
            empty_since: None,
            ..self
        }
    }

    /// The session once `pubkey` has left.
    pub open spec fn left(self, pubkey: Seq<u8>, now: u64) -> SessionModel {
        let rest = keyed::without(self.participants, pubkey);
        SessionModel {
            participants: rest,
            empty_since: if rest.len() == 0 {
                Some(now)
            } else {
                self.empty_since
            },
            ..self
        }
    }

    /// Whether the session has been empty for long enough to be dropped.
    pub open spec fn expired(self, now: u64) -> bool {
        self.empty_since matches Some(t) && now - t >= EMPTY_SESSION_TTL_NANOS
    }
}

impl CallSession {
    /// A session that nobody has joined.
    pub fn new(id: SessionId, mode: CallMode, clock: Clock) -> (r: Self)
        ensures
            r@ == SessionModel::fresh(id@, mode, clock),
            r@.wf(),
    {
        let r = CallSession {
            id,
            mode,
            created_at: clock.unix,
            participants: Vec::new(),
            empty_since: Some(clock.monotonic),
        };
        assert(r@ =~= SessionModel::fresh(id@, mode, clock));
        r
    }

    /// Where the participant `pubkey` stands.
    pub(crate) fn find(&self, pubkey: &[u8]) -> (r: Option<usize>)
        requires
            self@.wf(),
        ensures
            match r {
                Some(i) => {
                    &&& i < self.participants@.len()
                    &&& self@.has(pubkey@)
                    &&& keyed::place(self@.participants, pubkey@) == i
                },
                None => !self@.has(pubkey@),
            },
    {
        let mut i: usize = 0;
        while i < self.participants.len()
            invariant
                i <= self.participants@.len(),
                self@.wf(),
                forall|j: int| 0 <= j < i ==> (#[trigger] self.participants@[j]).pubkey@ != pubkey@,
            decreases self.participants@.len() - i,
        {
            if same_bytes(&self.participants[i].pubkey, pubkey) {
                proof {
                    assert(self@.participants[i as int].pubkey == pubkey@);
                    keyed::lemma_place(self@.participants, i as int);
                }
                return Some(i);
            }
            i = i + 1;
        }
        proof {
            assert forall|j: int| 0 <= j < self@.participants.len() implies (
            #[trigger] self@.participants[j]).pubkey != pubkey@ by {
                assert(self@.participants[j] == self.participants@[j]@);
            }
        }
        None
    }

    /// Lets `p` join. The caller has made sure that there is room.
    fn join(&mut self, p: Participant)
        requires
            old(self)@.wf(),
            !old(self)@.full_for(p.pubkey@),
        ensures
            final(self)@ == old(self)@.joined(p@),
            final(self)@.wf(),
    {
        proof {
            keyed::put_then_lookup(self@.participants, p@, p@.pubkey);
        }
        match self.find(&p.pubkey) {
            Some(i) => {
                proof {
                    assert(participant_models(self.participants@.update(i as int, p))
                        =~= self@.participants.update(i as int, p@));
                }
                self.participants[i] = p;
            },
            None => {
                proof {
                    assert(participant_models(self.participants@.push(p))
                        =~= self@.participants.push(p@));
                }
                self.participants.push(p);
            },
        }
        self.empty_since = None;
        assert(self@ =~= old(self)@.joined(p@));
    }

    /// Takes `pubkey` out, and gives the display name of who has left.
    fn leave(&mut self, pubkey: &[u8], now: u64) -> (r: Option<String>)
        requires
            old(self)@.wf(),
        ensures
            final(self)@.wf(),
            match r {
                Some(name) => {
                    &&& old(self)@.has(pubkey@)
                    &&& name@ == keyed::lookup(
                        old(self)@.participants,
                        pubkey@,
                    )->Some_0.display_name
                    &&& final(self)@ == old(self)@.left(pubkey@, now)
                },
                None => !old(self)@.has(pubkey@) && final(self)@ == old(self)@,
            },
    {
        proof {
            keyed::without_then_lookup(self@.participants, pubkey@, pubkey@);
        }
        match self.find(pubkey) {
            None => None,
            Some(i) => {
                proof {
                    assert(participant_models(self.participants@.remove(i as int))
                        =~= self@.participants.remove(i as int));
                }
                let gone: Participant = self.participants.remove(i);
                if self.participants.len() == 0 {
                    self.empty_since = Some(now);
                }
                assert(self@ =~= old(self)@.left(pubkey@, now));
                Some(gone.display_name)
            },
        }
    }

    fn is_expired(&self, now: u64) -> (r: bool)
        ensures
            r == self@.expired(now),
    {
        match self.empty_since {
            Some(t) => now >= t && now - t >= EMPTY_SESSION_TTL_NANOS,
            None => false,
        }
    }
}

// ── Registry ─────────────────────────────────────────────────────────────

/// All sessions of the mediator, each under its id.
pub struct SessionRegistry {
    inner: Vec<CallSession>,
    pub mcu_enabled: bool,
}

/// All sessions of the mediator, as plain values.
#[verifier::ext_equal]
pub struct RegistryModel {
    pub sessions: Seq<SessionModel>,
    pub mcu_enabled: bool,
}

/// The models of a list of sessions.
pub open spec fn session_models(s: Seq<CallSession>) -> Seq<SessionModel> {
    s.map_values(|x: CallSession| x@)
}

impl View for SessionRegistry {
    type V = RegistryModel;

    closed spec fn view(&self) -> RegistryModel {
        RegistryModel {
            sessions: session_models(self.inner@),
            mcu_enabled: self.mcu_enabled,
        }
    }
}

/// The model of a registry shows its sessions, in their order, and whether it
/// makes MCU sessions.
proof fn registry_fields(r: SessionRegistry)
    ensures
        r@.sessions.len() == r.inner@.len(),
        forall|i: int| 0 <= i < r.inner@.len() ==> #[trigger] r@.sessions[i] == r.inner@[i]@,
        r@.mcu_enabled == r.mcu_enabled,
{
}

impl RegistryModel {
    /// No two sessions share an id, and each is in order.
    pub open spec fn wf(self) -> bool {
        &&& keyed::distinct(self.sessions)
        &&& forall|i: int| 0 <= i < self.sessions.len() ==> (#[trigger] self.sessions[i]).wf()
    }

    /// Whether a session can be made in `mode`.
    pub open spec fn supports(self, mode: CallMode) -> bool {
        mode == CallMode::Sfu || self.mcu_enabled
    }

    /// The session with this id.
    pub open spec fn session(self, id: Seq<u8>) -> Option<SessionModel> {
        keyed::lookup(self.sessions, id)
    }

    /// The registry with `s` under its id.
    pub open spec fn with(self, s: SessionModel) -> RegistryModel {
        RegistryModel { sessions: keyed::put(self.sessions, s), ..self }
    }

    /// The registry without the session `id`.
    pub open spec fn removed(self, id: Seq<u8>) -> RegistryModel {
        RegistryModel { sessions: keyed::without(self.sessions, id), ..self }
    }

    /// The registry without the sessions that have been empty for too long.
    pub open spec fn collected(self, now: u64) -> RegistryModel {
        RegistryModel {
            sessions: self.sessions.filter(|s: SessionModel| !s.expired(now)),
            ..self
        }
    }

    /// The ids of the sessions that have been empty for too long.
    pub open spec fn expired_ids(self, now: u64) -> Seq<Seq<u8>> {
        self.sessions.filter(|s: SessionModel| s.expired(now)).map_values(|s: SessionModel| s.id)
    }

    /// Why `pubkey` cannot join the session `id`.
    pub open spec fn refusal(self, id: Seq<u8>, pubkey: Seq<u8>) -> Option<u8> {
        match self.session(id) {
            None => Some(ERR_UNKNOWN_SESSION),
            Some(s) => if s.full_for(pubkey) {
                Some(ERR_SESSION_FULL)
            } else {
                None
            },
        }
    }
}

/// A registry that is in order stays so when a session in order is put in.
pub(crate) proof fn lemma_with_wf(r: RegistryModel, s: SessionModel)
    requires
        r.wf(),
        s.wf(),
    ensures
        r.with(s).wf(),
{
    keyed::put_then_lookup(r.sessions, s, s.id);
    let after = r.with(s).sessions;
    assert forall|i: int| 0 <= i < after.len() implies (#[trigger] after[i]).wf() by {
        if keyed::holds(r.sessions, s.id) {
            keyed::lemma_found(r.sessions, s.id);
            if i != keyed::place(r.sessions, s.id) {
                assert(after[i] == r.sessions[i]);
            }
        } else if i < r.sessions.len() {
            assert(after[i] == r.sessions[i]);
        }
    }
}

impl SessionRegistry {
    /// A registry without sessions, which makes no MCU sessions.
    pub fn new() -> (r: Self)
        ensures
            r@.wf(),
            r@ == (RegistryModel { sessions: Seq::empty(), mcu_enabled: false }),
    {
        let r = SessionRegistry { inner: Vec::new(), mcu_enabled: false };
        assert(r@.sessions =~= Seq::<SessionModel>::empty());
        r
    }

    /// Where the session `id` stands.
    fn find(&self, id: &[u8]) -> (r: Option<usize>)
        requires
            self@.wf(),
        ensures
            match r {
                Some(i) => {
                    &&& i < self.inner@.len()
                    &&& keyed::holds(self@.sessions, id@)
                    &&& keyed::place(self@.sessions, id@) == i
                },
                None => !keyed::holds(self@.sessions, id@),
            },
    {
        let mut i: usize = 0;
        while i < self.inner.len()
            invariant
                i <= self.inner@.len(),
                self@.wf(),
                forall|j: int| 0 <= j < i ==> (#[trigger] self.inner@[j]).id@ != id@,
            decreases self.inner@.len() - i,
        {
            if same_bytes(&self.inner[i].id, id) {
                proof {
                    assert(self@.sessions[i as int].id == id@);
                    keyed::lemma_place(self@.sessions, i as int);
                }
                return Some(i);
            }
            i = i + 1;
        }
        proof {
            assert forall|j: int| 0 <= j < self@.sessions.len() implies (
            #[trigger] self@.sessions[j]).id != id@ by {
                assert(self@.sessions[j] == self.inner@[j]@);
            }
        }
        None
    }

    /// Whether a session can be made in `mode`.
    pub(crate) fn supports(&self, mode: CallMode) -> (r: bool)
        ensures
            r == self@.supports(mode),
    {
        matches!(mode, CallMode::Sfu) || self.mcu_enabled
    }

    /// Why `pubkey` cannot join the session `id`.
    pub(crate) fn refusal(&self, id: &SessionId, pubkey: &PubKey) -> (r: Option<u8>)
        requires
            self@.wf(),
        ensures
            r == self@.refusal(id@, pubkey@),
    {
        match self.get(id) {
            None => Some(ERR_UNKNOWN_SESSION),
            Some(s) => {
                if s.participants.len() >= MAX_PARTICIPANTS && s.find(pubkey).is_none() {
                    Some(ERR_SESSION_FULL)
                } else {
                    None
                }
            },
        }
    }

    /// Makes a session under `id`. One that was there under the same id is lost.
    pub fn create_with_id(&mut self, id: SessionId, mode: CallMode, clock: Clock) -> (r: Result<
        (),
        u8,
    >)
        requires
            old(self)@.wf(),
        ensures
            final(self)@.wf(),
            if old(self)@.supports(mode) {
                &&& r == Ok::<(), u8>(())
                &&& final(self)@ == old(self)@.with(SessionModel::fresh(id@, mode, clock))
            } else {
                &&& r == Err::<(), u8>(ERR_MODE_UNSUPPORTED)
                &&& final(self)@ == old(self)@
            },
    {
        if !self.supports(mode) {
            return Err(ERR_MODE_UNSUPPORTED);
        }
        let session: CallSession = CallSession::new(id, mode, clock);
        proof {
            lemma_with_wf(self@, session@);
        }
        match self.find(&id) {
            Some(i) => {
                proof {
                    assert(session_models(self.inner@.update(i as int, session))
                        =~= self@.sessions.update(i as int, session@));
                }
                self.inner[i] = session;
            },
            None => {
                proof {
                    assert(session_models(self.inner@.push(session)) =~= self@.sessions.push(
                        session@,
                    ));
                }
                self.inner.push(session);
            },
        }
        Ok(())
    }

    /// Makes a session under a random id, which is drawn only where the session
    /// can be made.
    pub fn create(&mut self, mode: CallMode, clock: Clock) -> (r: Result<SessionId, u8>)
        requires
            old(self)@.wf(),
        ensures
            final(self)@.wf(),
            match r {
                Ok(id) => old(self)@.supports(mode) && final(self)@ == old(self)@.with(
                    SessionModel::fresh(id@, mode, clock),
                ),
                Err(code) => !old(self)@.supports(mode) && code == ERR_MODE_UNSUPPORTED
                    && final(self)@ == old(self)@,
            },
    {
        if !self.supports(mode) {
            return Err(ERR_MODE_UNSUPPORTED);
        }
        let id: SessionId = generate_session_id();
        match self.create_with_id(id, mode, clock) {
            Ok(_) => Ok(id),
            Err(code) => Err(code),
        }
    }

    /// The session with this id.
    pub fn get(&self, id: &SessionId) -> (r: Option<&CallSession>)
        requires
            self@.wf(),
        ensures
            match r {
                Some(s) => self@.session(id@) == Some(s@) && s@.wf(),
                None => self@.session(id@) is None,
            },
    {
        match self.find(id) {
            Some(i) => {
                assert(self@.sessions[i as int] == self.inner@[i as int]@);
                Some(&self.inner[i])
            },
            None => None,
        }
    }

    /// Drops the session with this id, and says whether there was one.
    pub fn remove(&mut self, id: &SessionId) -> (r: bool)
        requires
            old(self)@.wf(),
        ensures
            final(self)@.wf(),
            final(self)@ == old(self)@.removed(id@),
            r == (old(self)@.session(id@) is Some),
    {
        match self.find(id) {
            None => false,
            Some(i) => {
                proof {
                    keyed::without_then_lookup(self@.sessions, id@, id@);
                    let after = self@.sessions.remove(i as int);
                    assert(session_models(self.inner@.remove(i as int)) =~= after);
                    assert forall|j: int| 0 <= j < after.len() implies (
                    #[trigger] after[j]).wf() by {
                        assert(after[j] == self@.sessions[if j < i {
                            j
                        } else {
                            j + 1
                        }]);
                    }
                }
                self.inner.remove(i);
                true
            },
        }
    }

    /// Lets `p` join the session `id`, and gives the mode of the session; or
    /// says why not.
    pub fn add_participant(&mut self, id: &SessionId, p: Participant) -> (r: Result<CallMode, u8>)
        requires
            old(self)@.wf(),
        ensures
            final(self)@.wf(),
            match old(self)@.refusal(id@, p.pubkey@) {
                Some(code) => r == Err::<CallMode, u8>(code) && final(self)@ == old(self)@,
                None => {
                    let s = old(self)@.session(id@)->Some_0;
                    &&& r == Ok::<CallMode, u8>(s.mode)
                    &&& final(self)@ == old(self)@.with(s.joined(p@))
                },
            },
    {
        match self.find(id) {
            None => Err(ERR_UNKNOWN_SESSION),
            Some(i) => {
                let ghost s = self.inner@[i as int]@;
                proof {
                    assert(self@.sessions[i as int] == s);
                    keyed::lemma_found(self@.sessions, id@);
                }
                if self.inner[i].participants.len() >= MAX_PARTICIPANTS && self.inner[i].find(
                    &p.pubkey,
                ).is_none() {
                    return Err(ERR_SESSION_FULL);
                }
                let mode: CallMode = self.inner[i].mode;
                self.inner[i].join(p);
                proof {
                    assert(self@.sessions =~= old(self)@.sessions.update(i as int, s.joined(p@)));
                    assert(self@ =~= old(self)@.with(s.joined(p@)));
                    lemma_with_wf(old(self)@, s.joined(p@));
                }
                Ok(mode)
            },
        }
    }

    /// Takes `pubkey` out of the session `id`, and gives the display name of who
    /// has left. `None` where nobody has.
    pub fn remove_participant(&mut self, id: &SessionId, pubkey: &PubKey, now: u64) -> (r: Option<
        String,
    >)
        requires
            old(self)@.wf(),
        ensures
            final(self)@.wf(),
            match old(self)@.session(id@) {
                None => r is None && final(self)@ == old(self)@,
                Some(s) => if s.has(pubkey@) {
                    &&& r is Some
                    &&& r->Some_0@ == keyed::lookup(s.participants, pubkey@)->Some_0.display_name
                    &&& final(self)@ == old(self)@.with(s.left(pubkey@, now))
                } else {
                    r is None && final(self)@ == old(self)@
                },
            },
    {
        match self.find(id) {
            None => None,
            Some(i) => {
                let ghost s = self.inner@[i as int]@;
                proof {
                    assert(self@.sessions[i as int] == s);
                    keyed::lemma_found(self@.sessions, id@);
                }
                let r: Option<String> = self.inner[i].leave(pubkey, now);
                proof {
                    if s.has(pubkey@) {
                        assert(self@.sessions =~= old(self)@.sessions.update(
                            i as int,
                            s.left(pubkey@, now),
                        ));
                        assert(self@ =~= old(self)@.with(s.left(pubkey@, now)));
                        lemma_with_wf(old(self)@, s.left(pubkey@, now));
                    } else {
                        assert(self@.sessions =~= old(self)@.sessions);
                    }
                }
                r
            },
        }
    }

    /// Drops the sessions that have been empty for too long, and gives their
    /// ids.
    pub fn gc_empty(&mut self, now: u64) -> (r: Vec<SessionId>)
        requires
            old(self)@.wf(),
        ensures
            final(self)@.wf(),
            final(self)@ == old(self)@.collected(now),
            r@.map_values(|id: SessionId| id@) == old(self)@.expired_ids(now),
    {
        let ghost all = self@.sessions;
        let ghost keep = |s: SessionModel| !s.expired(now);
        let ghost drop = |s: SessionModel| s.expired(now);
        let ghost ids = |s: SessionModel| s.id;
        let mut doomed: Vec<SessionId> = Vec::new();
        let mut i: usize = 0;
        let ghost mut seen: int = 0;
        proof {
            reveal(Seq::filter);
            assert(all.take(0) =~= Seq::<SessionModel>::empty());
            assert(all.skip(0) =~= all);
            assert(all.take(0).filter(keep) + all.skip(0) =~= all);
            assert(doomed@.map_values(|id: SessionId| id@) =~= all.take(0).filter(drop).map_values(
                ids,
            ));
        }
        while i < self.inner.len()
            invariant
                0 <= seen <= all.len(),
                i == all.take(seen).filter(keep).len(),
                self@.sessions == all.take(seen).filter(keep) + all.skip(seen),
                self@.mcu_enabled == old(self)@.mcu_enabled,
                doomed@.map_values(|id: SessionId| id@) == all.take(seen).filter(drop).map_values(
                    ids,
                ),
                keep == (|s: SessionModel| !s.expired(now)),
                drop == (|s: SessionModel| s.expired(now)),
                ids == (|s: SessionModel| s.id),
            decreases all.len() - seen,
        {
            let ghost before = self@.sessions;
            let ghost here = all[seen];
            proof {
                assert(self@.sessions.len() == self.inner@.len());
                assert(before[i as int] == here);
                assert(before[i as int] == self.inner@[i as int]@);
                assert(all.take(seen + 1).drop_last() =~= all.take(seen));
                assert(all.take(seen + 1).last() == here);
                reveal(Seq::filter);
            }
            if self.inner[i].is_expired(now) {
                let id: SessionId = self.inner[i].id;
                let ghost ids_before = doomed@.map_values(|id: SessionId| id@);
                doomed.push(id);
                proof {
                    assert(session_models(self.inner@.remove(i as int)) =~= before.remove(
                        i as int,
                    ));
                    assert(doomed@.map_values(|id: SessionId| id@) =~= ids_before.push(id@));
                    assert(all.take(seen + 1).filter(drop).map_values(ids) =~= all.take(
                        seen,
                    ).filter(drop).map_values(ids).push(id@));
                }
                self.inner.remove(i);
                assert(self@.sessions =~= all.take(seen + 1).filter(keep) + all.skip(seen + 1));
            } else {
                i = i + 1;
                assert(self@.sessions =~= all.take(seen + 1).filter(keep) + all.skip(seen + 1));
            }
            proof {
                seen = seen + 1;
            }
        }
        proof {
            assert(seen == all.len());
            assert(all.take(seen) =~= all);
            assert(self@.sessions =~= all.filter(keep));
            lemma_collected_wf(old(self)@, now);
        }
        doomed
    }
}

/// A registry that is in order stays so when empty sessions are dropped.
pub(crate) proof fn lemma_collected_wf(r: RegistryModel, now: u64)
    requires
        r.wf(),
    ensures
        r.collected(now).wf(),
{
    let keep = |s: SessionModel| !s.expired(now);
    let after = r.sessions.filter(keep);
    keyed::filter_then_lookup(r.sessions, keep, Seq::empty());
    assert forall|i: int| 0 <= i < after.len() implies (#[trigger] after[i]).wf() by {
        keyed::lemma_place(after, i);
        keyed::filter_then_lookup(r.sessions, keep, after[i].id);
        keyed::lemma_found(r.sessions, after[i].id);
    }
}

/// What the removal of empty sessions does to each of them: one that has been
/// empty for too long is gone, and every other one is as it was.
pub proof fn gc_takes_exactly_the_expired(r: RegistryModel, now: u64, id: Seq<u8>)
    requires
        r.wf(),
    ensures
        r.session(id) is None ==> r.collected(now).session(id) is None,
        r.session(id) matches Some(s) ==> r.collected(now).session(id) == (if s.expired(now) {
            None
        } else {
            Some(s)
        }),
{
    keyed::filter_then_lookup(r.sessions, |s: SessionModel| !s.expired(now), id);
}

/// A session that was made is found under its id, unused, and no other session
/// is touched.
pub proof fn create_then_get(
    r: RegistryModel,
    id: Seq<u8>,
    mode: CallMode,
    clock: Clock,
    other: Seq<u8>,
)
    requires
        r.wf(),
    ensures
        ({
            let after = r.with(SessionModel::fresh(id, mode, clock));
            &&& after.session(id) == Some(SessionModel::fresh(id, mode, clock))
            &&& other != id ==> after.session(other) == r.session(other)
        }),
{
    keyed::put_then_lookup(r.sessions, SessionModel::fresh(id, mode, clock), other);
}

/// A session that was removed is not found, and no other session is touched.
pub proof fn remove_then_get(r: RegistryModel, id: Seq<u8>, other: Seq<u8>)
    requires
        r.wf(),
    ensures
        r.removed(id).session(id) is None,
        other != id ==> r.removed(id).session(other) == r.session(other),
{
    keyed::without_then_lookup(r.sessions, id, other);
}

// ── Chance and time ──────────────────────────────────────────────────────

/// A random session id: `RngCore::fill_bytes` of the thread's generator of the
/// crate `rand`, on an array of the length of an id. Nothing is claimed of the
/// bytes.
#[verifier::external_body]
pub fn generate_session_id() -> (id: SessionId) {
    let mut id: SessionId = [0u8; SESSION_ID_LEN];
    rand::RngCore::fill_bytes(&mut rand::thread_rng(), &mut id);
    id
}

/// `SystemTime::elapsed` of std at the Unix epoch, in whole seconds; `None`
/// where the clock stands before the epoch. Nothing is claimed of the number.
#[verifier::external_body]
fn seconds_since_epoch() -> (r: Option<u64>) {
    std::time::UNIX_EPOCH.elapsed().ok().map(|d| d.as_secs())
}

/// A reading of the clock as a timestamp.
pub open spec fn timestamp(reading: Option<u64>) -> Option<i64> {
    match reading {
        Some(seconds) => Some(seconds as i64),
        None => None,
    }
}

/// A reading of the clock as a timestamp.
pub fn to_timestamp(reading: Option<u64>) -> (r: Option<i64>)
    ensures
        r == timestamp(reading),
{
    match reading {
        Some(seconds) => Some(seconds as i64),
        None => None,
    }
}

/// Seconds since the Unix epoch by the system clock; `None` where the clock
/// stands before the epoch.
pub fn now_unix() -> (r: Option<i64>)
    ensures
        exists|reading: Option<u64>| r == #[trigger] timestamp(reading),
{
    to_timestamp(seconds_since_epoch())
}

} // verus!
