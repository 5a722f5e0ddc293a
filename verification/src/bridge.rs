//! The per-call connection state machine.
//!
//! Each call opens one connection and drives it through send, one
//! received message, and close.  The driver around the library owns the
//! socket and the one-shot result slot; it feeds every socket event to a
//! [`ConnectionBridge`] and performs what the bridge hands back: an
//! outcome to write into the slot (at most one over the whole call) and
//! a way to close the connection.  [`bridge_step`] is the whole
//! behaviour; the laws at the bottom state that a send failure resolves
//! the call untouched by any later frame, and that only the first
//! inbound message is ever reflected in the outcome.

use vstd::prelude::*;
use crate::payload::{Payload, PayloadV};
use crate::envelope::{Frame, FrameV, DecodeError, decode_response, spec_decode_response};

verus! {

/// How the connection is to be closed after a step.
#[derive(Debug, Clone, Copy, PartialEq, Eq, Structural)]
pub enum CloseStatus {
    /// An orderly close after the response arrived.
    Normal,
    /// A close in error after the send failed.
    Error,
}

/// Where a call stands between socket events.
#[derive(Debug, Clone, Copy, PartialEq, Eq, Structural)]
pub enum BridgeState {
    /// The request is being written; no slot writer is armed yet.
    AwaitingSend,
    /// The request went out; the first inbound message resolves the call.
    AwaitingResponse,
    /// The call has its outcome; every further event is discarded.
    Resolved,
}

/// The terminal outcome of one call, written once into the slot.
#[derive(Debug, PartialEq, Eq)]
pub enum CallOutcome {
    /// The first inbound frame decoded to this payload.
    Reply(Payload),
    /// The first inbound frame was rejected by the codec.
    Rejected(DecodeError),
    /// The single write of the request failed, with the cause text.
    SendFailed(String),
}

/// The mathematical model of a [`CallOutcome`].
pub enum CallOutcomeV {
    Reply(PayloadV),
    Rejected(DecodeError),
    SendFailed(Seq<char>),
}

impl View for CallOutcome {
    type V = CallOutcomeV;

    open spec fn view(&self) -> CallOutcomeV {
        match self {
            CallOutcome::Reply(p) => CallOutcomeV::Reply(p.deep()),
            CallOutcome::Rejected(e) => CallOutcomeV::Rejected(*e),
            CallOutcome::SendFailed(t) => CallOutcomeV::SendFailed(t@),
        }
    }
}

/// A socket event, as the bridge models it.
pub enum BridgeEventV {
    /// The single write of the request succeeded.
    SendOk,
    /// The single write of the request failed, with the cause text.
    SendFailed(Seq<char>),
    /// A message arrived on the connection.
    Inbound(FrameV),
}

/// The outcome the first inbound frame resolves the call to.
pub open spec fn outcome_of(f: FrameV) -> CallOutcomeV {
    match spec_decode_response(f) {
        Ok(p) => CallOutcomeV::Reply(p),
        Err(e) => CallOutcomeV::Rejected(e),
    }
}

/// What one event does to the bridge: the next state, the outcome it
/// emits into the one-shot slot (if any), and how to close the
/// connection (if at all).  Events that do not fit the state - above
/// all, any message after the call is resolved - are discarded.
pub open spec fn bridge_step(s: BridgeState, e: BridgeEventV) -> (BridgeState, Option<
    CallOutcomeV,
>, Option<CloseStatus>) {
    match (s, e) {
        (BridgeState::AwaitingSend, BridgeEventV::SendOk) => (
            BridgeState::AwaitingResponse,
            None,
            None,
        ),
        (BridgeState::AwaitingSend, BridgeEventV::SendFailed(t)) => (
            BridgeState::Resolved,
            Some(CallOutcomeV::SendFailed(t)),
            Some(CloseStatus::Error),
        ),
        (BridgeState::AwaitingResponse, BridgeEventV::Inbound(f)) => (
            BridgeState::Resolved,
            Some(outcome_of(f)),
            Some(CloseStatus::Normal),
        ),
        (_, _) => (s, None, None),
    }
}

/// The model of the send result the driver hands in.
pub open spec fn send_event(r: Result<(), String>) -> BridgeEventV {
    match r {
        Ok(_) => BridgeEventV::SendOk,
        Err(t) => BridgeEventV::SendFailed(t@),
    }
}

/// The model of an emitted outcome.
pub open spec fn opt_outcome_view(o: Option<CallOutcome>) -> Option<CallOutcomeV> {
    match o {
        Some(x) => Some(x@),
        None => None,
    }
}

/// One call's bridge.  It is created before the request is written and
/// fed every event of its connection, in order.
pub struct ConnectionBridge {
    /// Where the call stands.
    pub state: BridgeState,
}

impl ConnectionBridge {
    /// A bridge for a fresh connection, before the request is written.
    pub fn new() -> (b: Self)
        ensures
            b.state == BridgeState::AwaitingSend,
    {
        ConnectionBridge { state: BridgeState::AwaitingSend }
    }

    /// Feeds the result of the single write of the encoded request.
    pub fn on_send_result(&mut self, r: Result<(), String>) -> (step: (
        Option<CallOutcome>,
        Option<CloseStatus>,
    ))
        ensures
            ({
                let t = bridge_step(old(self).state, send_event(r));
                final(self).state == t.0 && opt_outcome_view(step.0) == t.1 && step.1 == t.2
            }),
    {
        match self.state {
            BridgeState::AwaitingSend => match r {
                Ok(_) => {
                    self.state = BridgeState::AwaitingResponse;
                    (None, None)
                },
                Err(t) => {
                    self.state = BridgeState::Resolved;
                    (Some(CallOutcome::SendFailed(t)), Some(CloseStatus::Error))
                },
            },
            _ => (None, None),
        }
    }

    /// Feeds one inbound message.  Only the first message after a
    /// successful send resolves the call; everything else is discarded.
    pub fn on_message(&mut self, frame: Frame) -> (step: (
        Option<CallOutcome>,
        Option<CloseStatus>,
    ))
        ensures
            ({
                let t = bridge_step(old(self).state, BridgeEventV::Inbound(frame@));
                final(self).state == t.0 && opt_outcome_view(step.0) == t.1 && step.1 == t.2
            }),
    {
        match self.state {
            BridgeState::AwaitingResponse => {
                self.state = BridgeState::Resolved;
                let outcome = match decode_response(&frame) {
                    Ok(p) => CallOutcome::Reply(p),
                    Err(e) => CallOutcome::Rejected(e),
                };
                (Some(outcome), Some(CloseStatus::Normal))
            },
            _ => (None, None),
        }
    }
}

/// The state after a whole sequence of events.
pub open spec fn run_state(s: BridgeState, events: Seq<BridgeEventV>) -> BridgeState
    decreases events.len(),
{
    if events.len() == 0 {
        s
    } else {
        run_state(bridge_step(s, events[0]).0, events.drop_first())
    }
}

/// Every outcome emitted while a sequence of events is handled, in order.
pub open spec fn run_outcomes(s: BridgeState, events: Seq<BridgeEventV>) -> Seq<CallOutcomeV>
    decreases events.len(),
{
    if events.len() == 0 {
        Seq::empty()
    } else {
        let t = bridge_step(s, events[0]);
        (match t.1 {
            Some(o) => seq![o],
            None => Seq::empty(),
        }) + run_outcomes(t.0, events.drop_first())
    }
}

/// A resolved call stays resolved: no event leads out of that state.
pub proof fn lemma_resolved_is_absorbing(events: Seq<BridgeEventV>)
    ensures
        run_state(BridgeState::Resolved, events) == BridgeState::Resolved,
    decreases events.len(),
{
    if events.len() != 0 {
        lemma_resolved_is_absorbing(events.drop_first());
    }
}

/// A resolved call emits nothing more, whatever else arrives.
pub proof fn lemma_resolved_emits_nothing(events: Seq<BridgeEventV>)
    ensures
        run_outcomes(BridgeState::Resolved, events) == Seq::<CallOutcomeV>::empty(),
    decreases events.len(),
{
    if events.len() != 0 {
        lemma_resolved_emits_nothing(events.drop_first());
        assert(run_outcomes(BridgeState::Resolved, events) =~= Seq::<CallOutcomeV>::empty());
    }
}

/// The one-shot slot is written at most once: whatever events a
/// connection delivers, and from whatever state, at most one outcome is
/// ever emitted over the whole call.
pub proof fn lemma_at_most_one_outcome(s: BridgeState, events: Seq<BridgeEventV>)
    ensures
        run_outcomes(s, events).len() <= 1,
    decreases events.len(),
{
    if events.len() != 0 {
        let t = bridge_step(s, events[0]);
        if t.1 is Some {
            assert(t.0 == BridgeState::Resolved);
            lemma_resolved_emits_nothing(events.drop_first());
        } else {
            lemma_at_most_one_outcome(t.0, events.drop_first());
        }
    }
}

/// If the send fails, the call resolves to that send failure and to
/// nothing else: no later event - in particular no inbound frame, so no
/// decoding - has any effect on the outcome.
pub proof fn lemma_send_failure_is_final(t: Seq<char>, rest: Seq<BridgeEventV>)
    ensures
        run_outcomes(BridgeState::AwaitingSend, seq![BridgeEventV::SendFailed(t)] + rest)
            == seq![CallOutcomeV::SendFailed(t)],
{
    let events = seq![BridgeEventV::SendFailed(t)] + rest;
    assert(events[0] == BridgeEventV::SendFailed(t));
    assert(events.drop_first() =~= rest);
    lemma_resolved_emits_nothing(rest);
    assert(run_outcomes(BridgeState::AwaitingSend, events) =~= seq![CallOutcomeV::SendFailed(t)]);
}

/// After a successful send, the first inbound message alone decides the
/// call: the emitted outcome is its decoding, and any number of later
/// messages leave no trace.
pub proof fn lemma_first_message_decides(f: FrameV, rest: Seq<BridgeEventV>)
    ensures
        run_outcomes(
            BridgeState::AwaitingSend,
            seq![BridgeEventV::SendOk, BridgeEventV::Inbound(f)] + rest,
        ) == seq![outcome_of(f)],
{
    let events = seq![BridgeEventV::SendOk, BridgeEventV::Inbound(f)] + rest;
    assert(events[0] == BridgeEventV::SendOk);
    let events1 = events.drop_first();
    assert(events1 =~= seq![BridgeEventV::Inbound(f)] + rest);
    assert(events1[0] == BridgeEventV::Inbound(f));
    assert(events1.drop_first() =~= rest);
    lemma_resolved_emits_nothing(rest);
    assert(run_outcomes(BridgeState::AwaitingResponse, events1) =~= seq![outcome_of(f)]);
    assert(run_outcomes(BridgeState::AwaitingSend, events) =~= seq![outcome_of(f)]);
}

} // verus!
