//! The life of a control stream: it opens, frames come in, it ends.

use vstd::prelude::*;

use crate::constants::{CMD_ERROR, ERR_MALFORMED, SESSION_ID_LEN};
use crate::handlers::{self, dispatch, dispatch_with_id, on_control_disconnect};
use crate::protocol::build_error;
use crate::server::{self, ControlId, Effect, ServerModel, ServerState};
use crate::session::{Clock, PubKey, SessionId};

verus! {

/// What happens on a control stream.
#[derive(Debug)]
pub enum ControlEvent {
    /// The stream is open.
    Opened,
    /// A frame has come in.
    Frame { cmd: u8, body: Vec<u8> },
    /// The stream has ended, or cannot be read any further.
    Ended,
}

/// What happens on a control stream, as plain values.
pub enum ControlEventModel {
    Opened,
    Frame { cmd: u8, body: Seq<u8> },
    Ended,
}

impl View for ControlEvent {
    type V = ControlEventModel;

    open spec fn view(&self) -> ControlEventModel {
        match self {
            ControlEvent::Opened => ControlEventModel::Opened,
            ControlEvent::Frame { cmd, body } => ControlEventModel::Frame {
                cmd: *cmd,
                body: body@,
            },
            ControlEvent::Ended => ControlEventModel::Ended,
        }
    }
}

impl ServerModel {
    /// The state once stream `cid` is open.
    pub open spec fn with_control(self, cid: ControlId, remote: Seq<u8>) -> ServerModel {
        ServerModel { controls: self.controls.insert(cid, remote), ..self }
    }

    /// The state once stream `cid` is no longer live.
    pub open spec fn without_control(self, cid: ControlId) -> ServerModel {
        ServerModel { controls: self.controls.remove(cid), ..self }
    }

    /// An event on stream `cid`, whose peer authenticated with `remote`. A
    /// request that cannot be carried out is answered with the complaint.
    pub open spec fn control_step(
        self,
        cid: ControlId,
        remote: Seq<u8>,
        event: ControlEventModel,
        clock: Clock,
        id: Seq<u8>,
    ) -> handlers::Step {
        match event {
            ControlEventModel::Opened => (self.with_control(cid, remote), Seq::empty()),
            ControlEventModel::Frame { cmd, body } => match self.request_step(
                cid,
                remote,
                cmd,
                body,
                clock,
                id,
            ) {
                Ok(step) => step,
                Err(text) => (self, handlers::error_reply(ERR_MALFORMED, text)),
            },
            ControlEventModel::Ended => self.without_control(cid).disconnect_step(
                cid,
                clock.monotonic,
            ),
        }
    }
}

/// What is sent on a request: what it led to, or the complaint about it.
fn answer(r: Result<Vec<Effect>, String>) -> (effects: Vec<Effect>)
    ensures
        match r {
            Ok(es) => effects@ == es@,
            Err(e) => server::effect_models(effects@) == handlers::error_reply(ERR_MALFORMED, e@),
        },
{
    match r {
        Ok(effects) => effects,
        Err(e) => {
            let mut out: Vec<Effect> = Vec::new();
            out.push(
                Effect::Reply { cmd: CMD_ERROR, body: build_error(ERR_MALFORMED, e.as_str()) },
            );
            assert(server::effect_models(out@) =~= handlers::error_reply(ERR_MALFORMED, e@));
            out
        },
    }
}

/// Takes in an event of a control stream; a session that it makes gets the id
/// `id`.
pub fn serve_control_with_id(
    state: &mut ServerState,
    cid: ControlId,
    remote_pub: &PubKey,
    event: ControlEvent,
    clock: Clock,
    id: SessionId,
) -> (r: Vec<Effect>)
    requires
        old(state)@.wf(),
    ensures
        final(state)@.wf(),
        (final(state)@, server::effect_models(r@)) == old(state)@.control_step(
            cid,
            remote_pub@,
            event@,
            clock,
            id@,
        ),
{
    match event {
        ControlEvent::Opened => {
            state.open_control(cid, remote_pub);
            let r: Vec<Effect> = Vec::new();
            proof {
                assert(state@ =~= old(state)@.with_control(cid, remote_pub@));
                assert(server::effect_models(r@) =~= Seq::empty());
            }
            r
        },
        ControlEvent::Frame { cmd, body } => {
            answer(dispatch_with_id(state, cid, remote_pub, cmd, body.as_slice(), clock, id))
        },
        ControlEvent::Ended => {
            state.close_control(cid);
            assert(state@ =~= old(state)@.without_control(cid));
            on_control_disconnect(state, cid, clock.monotonic)
        },
    }
}

/// Takes in an event of a control stream; a session that it makes gets a random
/// id, which is drawn only where one is made.
pub fn serve_control(
    state: &mut ServerState,
    cid: ControlId,
    remote_pub: &PubKey,
    event: ControlEvent,
    clock: Clock,
) -> (r: Vec<Effect>)
    requires
        old(state)@.wf(),
    ensures
        final(state)@.wf(),
        exists|id: SessionId|
            (final(state)@, server::effect_models(r@)) == old(state)@.control_step(
                cid,
                remote_pub@,
                event@,
                clock,
                #[trigger] id@,
            ),
{
    match event {
        ControlEvent::Frame { cmd, body } => {
            let r: Result<Vec<Effect>, String> = dispatch(
                state,
                cid,
                remote_pub,
                cmd,
                body.as_slice(),
                clock,
            );
            let ghost id = choose|id: SessionId|
                handlers::outcome(
                    old(state)@,
                    state@,
                    r,
                    old(state)@.request_step(cid, remote_pub@, cmd, body@, clock, #[trigger] id@),
                );
            let effects: Vec<Effect> = answer(r);
            assert((state@, server::effect_models(effects@)) == old(state)@.control_step(
                cid,
                remote_pub@,
                ControlEventModel::Frame { cmd, body: body@ },
                clock,
                id@,
            ));
            effects
        },
        other => {
            // No session is made here.
            let id: SessionId = [0u8; SESSION_ID_LEN];
            let r: Vec<Effect> = serve_control_with_id(state, cid, remote_pub, other, clock, id);
            assert((state@, server::effect_models(r@)) == old(state)@.control_step(
                cid,
                remote_pub@,
                event@,
                clock,
                id@,
            ));
            r
        },
    }
}

} // verus!
