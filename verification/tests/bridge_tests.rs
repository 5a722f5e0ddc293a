use admin_bridge::bridge::{CallOutcome, CloseStatus, ConnectionBridge};
use admin_bridge::envelope::{encode_response, DecodeError, Frame};
use admin_bridge::payload::Payload;
use admin_bridge::service::{connect_failure, resolve_outcome, FailureCause, ServiceError};

fn response_frame(p: &Payload) -> Frame {
    Frame::Binary(encode_response(p).unwrap())
}

#[test]
fn happy_path_resolves_to_reply() {
    let mut bridge = ConnectionBridge::new();
    let (outcome, close) = bridge.on_send_result(Ok(()));
    assert!(outcome.is_none());
    assert!(close.is_none());
    let (outcome, close) = bridge.on_message(response_frame(&Payload::Int(42)));
    assert_eq!(outcome, Some(CallOutcome::Reply(Payload::Int(42))));
    assert_eq!(close, Some(CloseStatus::Normal));
}

#[test]
fn send_failure_resolves_and_closes_in_error() {
    let mut bridge = ConnectionBridge::new();
    let (outcome, close) = bridge.on_send_result(Err("pipe broken".to_string()));
    assert_eq!(outcome, Some(CallOutcome::SendFailed("pipe broken".to_string())));
    assert_eq!(close, Some(CloseStatus::Error));
    // After a send failure the decode path is never entered: a perfectly
    // valid response frame arriving later leaves no trace.
    let (outcome, close) = bridge.on_message(response_frame(&Payload::Int(42)));
    assert!(outcome.is_none());
    assert!(close.is_none());
}

#[test]
fn only_first_message_decides() {
    let mut bridge = ConnectionBridge::new();
    bridge.on_send_result(Ok(()));
    let (first, _) = bridge.on_message(response_frame(&Payload::Int(1)));
    assert_eq!(first, Some(CallOutcome::Reply(Payload::Int(1))));
    let (second, close) = bridge.on_message(response_frame(&Payload::Int(2)));
    assert!(second.is_none());
    assert!(close.is_none());
}

#[test]
fn non_binary_message_resolves_to_rejection() {
    let mut bridge = ConnectionBridge::new();
    bridge.on_send_result(Ok(()));
    let (outcome, close) = bridge.on_message(Frame::Text(b"hello".to_vec()));
    assert_eq!(outcome, Some(CallOutcome::Rejected(DecodeError::UnexpectedFrameKind)));
    assert_eq!(close, Some(CloseStatus::Normal));
}

#[test]
fn message_before_send_result_is_discarded() {
    let mut bridge = ConnectionBridge::new();
    let (outcome, close) = bridge.on_message(response_frame(&Payload::Nil));
    assert!(outcome.is_none());
    assert!(close.is_none());
}

#[test]
fn resolve_outcome_maps_each_case() {
    assert_eq!(
        resolve_outcome(CallOutcome::Reply(Payload::Bool(true))),
        Ok(Payload::Bool(true))
    );
    assert_eq!(
        resolve_outcome(CallOutcome::SendFailed("boom".to_string())),
        Err(ServiceError { cause: FailureCause::SendFailure("boom".to_string()) })
    );
    assert_eq!(
        resolve_outcome(CallOutcome::Rejected(DecodeError::UnexpectedFrameKind)),
        Err(ServiceError { cause: FailureCause::UnexpectedFrameKind })
    );
    assert_eq!(
        resolve_outcome(CallOutcome::Rejected(DecodeError::EnvelopeDecodeFailure)),
        Err(ServiceError { cause: FailureCause::EnvelopeDecodeFailure })
    );
    assert_eq!(
        resolve_outcome(CallOutcome::Rejected(DecodeError::UnexpectedVariant)),
        Err(ServiceError { cause: FailureCause::UnexpectedVariant })
    );
    assert_eq!(
        resolve_outcome(CallOutcome::Rejected(DecodeError::PayloadDecodeFailure)),
        Err(ServiceError { cause: FailureCause::PayloadDecodeFailure })
    );
}

#[test]
fn connect_failure_keeps_the_cause_text() {
    let e = connect_failure("no route".to_string());
    assert_eq!(e, ServiceError { cause: FailureCause::ConnectFailure("no route".to_string()) });
}
