//! The call service's single error shape.
//!
//! Whatever network step fails, the caller of the service receives one
//! error type; which step failed, and any cause text the transport gave,
//! survive only inside it.  [`resolve_outcome`] maps a call's terminal
//! outcome to the caller-facing result.

use vstd::prelude::*;
use crate::payload::{Payload, PayloadV};
use crate::envelope::DecodeError;
use crate::bridge::{CallOutcome, CallOutcomeV};

verus! {

/// Which network step a failed call died at.
#[derive(Debug, PartialEq, Eq)]
pub enum FailureCause {
    /// The connection could not be established; the transport's text.
    ConnectFailure(String),
    /// The single write of the request failed; the transport's text.
    SendFailure(String),
    /// The response frame was not a binary frame.
    UnexpectedFrameKind,
    /// The response bytes did not hold a well-shaped envelope.
    EnvelopeDecodeFailure,
    /// The response envelope was request-tagged.
    UnexpectedVariant,
    /// The envelope's data field did not hold a payload.
    PayloadDecodeFailure,
}

/// The mathematical model of a [`FailureCause`].
pub enum FailureCauseV {
    ConnectFailure(Seq<char>),
    SendFailure(Seq<char>),
    UnexpectedFrameKind,
    EnvelopeDecodeFailure,
    UnexpectedVariant,
    PayloadDecodeFailure,
}

impl View for FailureCause {
    type V = FailureCauseV;

    open spec fn view(&self) -> FailureCauseV {
        match self {
            FailureCause::ConnectFailure(t) => FailureCauseV::ConnectFailure(t@),
            FailureCause::SendFailure(t) => FailureCauseV::SendFailure(t@),
            FailureCause::UnexpectedFrameKind => FailureCauseV::UnexpectedFrameKind,
            FailureCause::EnvelopeDecodeFailure => FailureCauseV::EnvelopeDecodeFailure,
            FailureCause::UnexpectedVariant => FailureCauseV::UnexpectedVariant,
            FailureCause::PayloadDecodeFailure => FailureCauseV::PayloadDecodeFailure,
        }
    }
}

/// The one error shape the service exposes.  No error code crosses this
/// boundary; a consumer that needs more reads the cause.
#[derive(Debug, PartialEq, Eq)]
pub struct ServiceError {
    /// The step that failed.
    pub cause: FailureCause,
}

impl View for ServiceError {
    type V = FailureCauseV;

    open spec fn view(&self) -> FailureCauseV {
        self.cause@
    }
}

/// The cause a rejected frame maps to.
pub open spec fn cause_of_decode_error(e: DecodeError) -> FailureCauseV {
    match e {
        DecodeError::UnexpectedFrameKind => FailureCauseV::UnexpectedFrameKind,
        DecodeError::EnvelopeDecodeFailure => FailureCauseV::EnvelopeDecodeFailure,
        DecodeError::UnexpectedVariant => FailureCauseV::UnexpectedVariant,
        DecodeError::PayloadDecodeFailure => FailureCauseV::PayloadDecodeFailure,
    }
}

/// What the caller receives for each terminal outcome.
pub open spec fn normalize(o: CallOutcomeV) -> Result<PayloadV, FailureCauseV> {
    match o {
        CallOutcomeV::Reply(p) => Ok(p),
        CallOutcomeV::Rejected(e) => Err(cause_of_decode_error(e)),
        CallOutcomeV::SendFailed(t) => Err(FailureCauseV::SendFailure(t)),
    }
}

/// Turns a call's terminal outcome into the caller-facing result,
/// exactly as [`normalize`] says.
pub fn resolve_outcome(outcome: CallOutcome) -> (r: Result<Payload, ServiceError>)
    ensures
        match r {
            Ok(p) => normalize(outcome@) == Ok::<PayloadV, FailureCauseV>(p.deep()),
            Err(e) => normalize(outcome@) == Err::<PayloadV, FailureCauseV>(e@),
        },
{
    match outcome {
        CallOutcome::Reply(p) => Ok(p),
        CallOutcome::Rejected(e) => Err(
            ServiceError {
                cause: match e {
                    DecodeError::UnexpectedFrameKind => FailureCause::UnexpectedFrameKind,
                    DecodeError::EnvelopeDecodeFailure => FailureCause::EnvelopeDecodeFailure,
                    DecodeError::UnexpectedVariant => FailureCause::UnexpectedVariant,
                    DecodeError::PayloadDecodeFailure => FailureCause::PayloadDecodeFailure,
                },
            },
        ),
        CallOutcome::SendFailed(t) => Err(ServiceError { cause: FailureCause::SendFailure(t) }),
    }
}

/// The error for a connection that could not be established.  It is
/// returned to the caller directly, before any slot writer is armed.
pub fn connect_failure(detail: String) -> (e: ServiceError)
    ensures
        e@ == FailureCauseV::ConnectFailure(detail@),
{
    ServiceError { cause: FailureCause::ConnectFailure(detail) }
}

} // verus!
