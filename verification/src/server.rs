//! The state of the server, and the effects that its steps ask for.

use std::collections::HashMap;
use vstd::prelude::*;

use crate::bytes::{as_array, same_bytes};
use crate::constants::PUBKEY_LEN;
use crate::keyed::{self, Keyed};
use crate::session::{PubKey, RegistryModel, SessionId, SessionModel, SessionRegistry};

verus! {

/// Stable id of a control-stream connection. Participants with several devices
/// on one key get one for each.
pub type ControlId = u64;

// ── Effects ──────────────────────────────────────────────────────────────

/// A control message that a step of the server asks to have sent.
#[derive(Debug)]
pub enum Effect {
    /// On the stream that the request came in on.
    Reply { cmd: u8, body: Vec<u8> },
    /// On the stream `to`.
    Send { to: ControlId, cmd: u8, body: Vec<u8> },
}

/// A control message that is to be sent, as plain values.
pub enum EffectModel {
    Reply { cmd: u8, body: Seq<u8> },
    Send { to: ControlId, cmd: u8, body: Seq<u8> },
}

impl View for Effect {
    type V = EffectModel;

    open spec fn view(&self) -> EffectModel {
        match self {
            Effect::Reply { cmd, body } => EffectModel::Reply { cmd: *cmd, body: body@ },
            Effect::Send { to, cmd, body } => EffectModel::Send { to: *to, cmd: *cmd, body: body@ },
        }
    }
}

impl EffectModel {
    /// The command of the message.
    pub open spec fn cmd(self) -> u8 {
        match self {
            EffectModel::Reply { cmd, .. } => cmd,
            EffectModel::Send { cmd, .. } => cmd,
        }
    }

    /// The body of the message.
    pub open spec fn body(self) -> Seq<u8> {
        match self {
            EffectModel::Reply { body, .. } => body,
            EffectModel::Send { body, .. } => body,
        }
    }
}

/// The models of a list of effects.
pub open spec fn effect_models(es: Seq<Effect>) -> Seq<EffectModel> {
    es.map_values(|e: Effect| e@)
}

pub(crate) proof fn lemma_effects_push(es: Seq<Effect>, e: Effect)
    ensures
        effect_models(es.push(e)) == effect_models(es).push(e@),
{
    assert(effect_models(es.push(e)) =~= effect_models(es).push(e@));
}

// ── State ────────────────────────────────────────────────────────────────

/// Which control stream owns the participant `pubkey` of a session.
#[derive(Clone, Copy, Debug)]
pub struct Member {
    pub session: SessionId,
    pub pubkey: PubKey,
    pub owner: ControlId,
}

/// Which control stream owns a participant, as plain values.
#[verifier::ext_equal]
pub struct MemberModel {
    pub session: Seq<u8>,
    pub pubkey: Seq<u8>,
    pub owner: ControlId,
}

impl Keyed for MemberModel {
    type Key = (Seq<u8>, Seq<u8>);

    open spec fn key(self) -> (Seq<u8>, Seq<u8>) {
        (self.session, self.pubkey)
    }
}

impl View for Member {
    type V = MemberModel;

    open spec fn view(&self) -> MemberModel {
        MemberModel { session: self.session@, pubkey: self.pubkey@, owner: self.owner }
    }
}

/// The models of a list of members.
pub open spec fn member_models(s: Seq<Member>) -> Seq<MemberModel> {
    s.map_values(|m: Member| m@)
}

/// The control streams: which are live, and what each of them owns.
pub struct Streams {
    /// The key that each live control connection authenticated with.
    control_pub: HashMap<ControlId, PubKey>,
    /// The control stream that owns each participant of each session.
    member_control: Vec<Member>,
    /// The id of the next control connection.
    next_id: ControlId,
}

/// The control streams, as plain values.
#[verifier::ext_equal]
pub struct StreamsModel {
    pub controls: Map<ControlId, Seq<u8>>,
    pub members: Seq<MemberModel>,
    pub next_id: ControlId,
}

impl View for Streams {
    type V = StreamsModel;

    closed spec fn view(&self) -> StreamsModel {
        StreamsModel {
            controls: self.control_pub@.map_values(|k: PubKey| k@),
            members: member_models(self.member_control@),
            next_id: self.next_id,
        }
    }
}

/// The model of the streams shows the key of each live one, the owners in their
/// order, and the next id.
proof fn streams_fields(s: Streams, cid: ControlId)
    ensures
        s@.controls.contains_key(cid) <==> s.control_pub@.contains_key(cid),
        s.control_pub@.contains_key(cid) ==> s@.controls[cid] == s.control_pub@[cid]@,
        s@.members.len() == s.member_control@.len(),
        forall|i: int|
            0 <= i < s.member_control@.len() ==> #[trigger] s@.members[i] == s.member_control@[i]@,
        s@.next_id == s.next_id,
{
}

/// Everything that the server knows.
pub struct ServerState {
    pub mediator_pub: PubKey,
    pub registry: SessionRegistry,
    pub streams: Streams,
}

/// Everything that the server knows, as plain values.
#[verifier::ext_equal]
pub struct ServerModel {
    pub mediator_pub: Seq<u8>,
    pub registry: RegistryModel,
    pub controls: Map<ControlId, Seq<u8>>,
    pub members: Seq<MemberModel>,
    pub next_id: ControlId,
}

impl View for ServerState {
    type V = ServerModel;

    open spec fn view(&self) -> ServerModel {
        ServerModel {
            mediator_pub: self.mediator_pub@,
            registry: self.registry@,
            controls: self.streams@.controls,
            members: self.streams@.members,
            next_id: self.streams@.next_id,
        }
    }
}

impl ServerModel {
    /// A server without connections.
    pub open spec fn started(mediator_pub: Seq<u8>, registry: RegistryModel) -> ServerModel {
        ServerModel {
            mediator_pub,
            registry,
            controls: Map::empty(),
            members: Seq::empty(),
            next_id: 1,
        }
    }

    /// The server with the session `s` under its id.
    pub open spec fn with_session(self, s: SessionModel) -> ServerModel {
        ServerModel { registry: self.registry.with(s), ..self }
    }

    /// The registry is in order, and each participant has one owner.
    pub open spec fn wf(self) -> bool {
        self.registry.wf() && keyed::distinct(self.members)
    }

    /// Whether a control connection is live.
    pub open spec fn live(self, cid: ControlId) -> bool {
        self.controls.contains_key(cid)
    }

    /// The control stream that owns a participant.
    pub open spec fn owner(self, session: Seq<u8>, pubkey: Seq<u8>) -> Option<ControlId> {
        match keyed::lookup(self.members, (session, pubkey)) {
            Some(m) => Some(m.owner),
            None => None,
        }
    }
}

/// The id after `id`. The ids start over when they are used up.
pub open spec fn id_after(id: ControlId) -> ControlId {
    if id == u64::MAX {
        0
    } else {
        (id + 1) as u64
    }
}

impl ServerModel {
    /// The server once an id has been handed out.
    pub open spec fn with_id_used(self) -> ServerModel {
        ServerModel { next_id: id_after(self.next_id), ..self }
    }
}

impl Streams {
    /// No connections.
    fn new() -> (r: Self)
        ensures
            r@ == (StreamsModel { controls: Map::empty(), members: Seq::empty(), next_id: 1 }),
    {
        let r = Streams { control_pub: HashMap::new(), member_control: Vec::new(), next_id: 1 };
        proof {
            assert(r@.controls =~= Map::<ControlId, Seq<u8>>::empty());
            assert(r@.members =~= Seq::<MemberModel>::empty());
        }
        r
    }

    /// How many participants have an owner.
    pub(crate) fn member_count(&self) -> (r: usize)
        ensures
            r == self@.members.len(),
    {
        self.member_control.len()
    }

    /// One of the participants that have an owner.
    pub(crate) fn member(&self, i: usize) -> (r: &Member)
        requires
            i < self@.members.len(),
        ensures
            r@ == self@.members[i as int],
    {
        &self.member_control[i]
    }

    /// Where the entry of a participant stands.
    fn find_member(&self, session: &[u8], pubkey: &[u8]) -> (r: Option<usize>)
        requires
            keyed::distinct(self@.members),
        ensures
            match r {
                Some(i) => {
                    &&& i < self.member_control@.len()
                    &&& keyed::holds(self@.members, (session@, pubkey@))
                    &&& keyed::place(self@.members, (session@, pubkey@)) == i
                },
                None => !keyed::holds(self@.members, (session@, pubkey@)),
            },
    {
        let mut i: usize = 0;
        while i < self.member_control.len()
            invariant
                i <= self.member_control@.len(),
                keyed::distinct(self@.members),
                forall|j: int|
                    0 <= j < i ==> (#[trigger] self.member_control@[j])@.key() != (
                        session@,
                        pubkey@,
                    ),
            decreases self.member_control@.len() - i,
        {
            if same_bytes(&self.member_control[i].session, session) && same_bytes(
                &self.member_control[i].pubkey,
                pubkey,
            ) {
                proof {
                    assert(self@.members[i as int].key() == (session@, pubkey@));
                    keyed::lemma_place(self@.members, i as int);
                }
                return Some(i);
            }
            i = i + 1;
        }
        proof {
            assert forall|j: int| 0 <= j < self@.members.len() implies (
            #[trigger] self@.members[j]).key() != (session@, pubkey@) by {
                assert(self@.members[j] == self.member_control@[j]@);
            }
        }
        None
    }
}

impl ServerState {
    /// A server without connections.
    pub fn new(mediator_pub: PubKey, registry: SessionRegistry) -> (r: Self)
        requires
            registry@.wf(),
        ensures
            r@.wf(),
            r@ == ServerModel::started(mediator_pub@, registry@),
    {
        ServerState { mediator_pub, registry, streams: Streams::new() }
    }

    /// An id for a new control connection.
    pub fn next_control_id(&mut self) -> (r: ControlId)
        ensures
            r == old(self)@.next_id,
            final(self)@ == old(self)@.with_id_used(),
    {
        let id: ControlId = self.streams.next_id;
        self.streams.next_id = id.wrapping_add(1);
        id
    }

    /// Takes in a connection whose peer authenticated with `key`: gives it an id.
    /// A key of the wrong length is turned down with its length; the id is used
    /// up all the same.
    pub fn accept_control(&mut self, key: &[u8]) -> (r: Result<(ControlId, PubKey), usize>)
        ensures
            final(self)@ == old(self)@.with_id_used(),
            match r {
                Ok((cid, pk)) => {
                    &&& key@.len() == PUBKEY_LEN
                    &&& cid == old(self)@.next_id
                    &&& pk@ == key@
                },
                Err(n) => key@.len() != PUBKEY_LEN && n == key@.len(),
            },
    {
        let cid: ControlId = self.next_control_id();
        if key.len() != PUBKEY_LEN {
            return Err(key.len());
        }
        let pk: PubKey = *as_array(key);
        Ok((cid, pk))
    }

    /// Whether a control connection is live.
    pub fn is_live(&self, cid: ControlId) -> (r: bool)
        ensures
            r == self@.live(cid),
    {
        self.streams.control_pub.contains_key(&cid)
    }

    /// Counts a control connection among the live ones.
    pub(crate) fn open_control(&mut self, cid: ControlId, remote_pub: &PubKey)
        ensures
            final(self)@ == (ServerModel {
                controls: old(self)@.controls.insert(cid, remote_pub@),
                ..old(self)@
            }),
    {
        self.streams.control_pub.insert(cid, *remote_pub);
        assert(self@.controls =~= old(self)@.controls.insert(cid, remote_pub@));
    }

    /// Counts a control connection among the live ones no longer.
    pub(crate) fn close_control(&mut self, cid: ControlId)
        ensures
            final(self)@ == (ServerModel {
                controls: old(self)@.controls.remove(cid),
                ..old(self)@
            }),
    {
        self.streams.control_pub.remove(&cid);
        assert(self@.controls =~= old(self)@.controls.remove(cid));
    }

    /// The control stream that owns a participant.
    pub fn owner_of(&self, session: &SessionId, pubkey: &PubKey) -> (r: Option<ControlId>)
        requires
            self@.wf(),
        ensures
            r == self@.owner(session@, pubkey@),
    {
        match self.streams.find_member(session, pubkey) {
            Some(i) => {
                let m: &Member = self.streams.member(i);
                Some(m.owner)
            },
            None => None,
        }
    }

    /// Makes a control stream the owner of a participant.
    pub(crate) fn set_owner(&mut self, session: &SessionId, pubkey: &PubKey, owner: ControlId)
        requires
            old(self)@.wf(),
        ensures
            final(self)@.wf(),
            final(self)@ == (ServerModel {
                members: keyed::put(
                    old(self)@.members,
                    MemberModel { session: session@, pubkey: pubkey@, owner },
                ),
                ..old(self)@
            }),
    {
        let m: Member = Member { session: *session, pubkey: *pubkey, owner };
        proof {
            keyed::put_then_lookup(self@.members, m@, m@.key());
        }
        match self.streams.find_member(session, pubkey) {
            Some(i) => {
                self.streams.member_control[i] = m;
                assert(self@.members =~= old(self)@.members.update(i as int, m@));
            },
            None => {
                self.streams.member_control.push(m);
                assert(self@.members =~= old(self)@.members.push(m@));
            },
        }
    }

    /// Forgets the owner of a participant.
    pub(crate) fn drop_owner(&mut self, session: &SessionId, pubkey: &PubKey)
        requires
            old(self)@.wf(),
        ensures
            final(self)@.wf(),
            final(self)@ == (ServerModel {
                members: keyed::without(old(self)@.members, (session@, pubkey@)),
                ..old(self)@
            }),
    {
        proof {
            keyed::without_then_lookup(self@.members, (session@, pubkey@), (session@, pubkey@));
        }
        match self.streams.find_member(session, pubkey) {
            Some(i) => {
                self.streams.member_control.remove(i);
                assert(self@.members =~= old(self)@.members.remove(i as int));
            },
            None => {},
        }
    }
}

} // verus!
