//! The call path against the real socket transport.
//!
//! Only the failure side runs as a test: a live request/reply exchange
//! needs outbound network connections, which are not available where
//! these tests run.  The round trip such an exchange would exercise is
//! proved over the codec and covered byte for byte by the envelope
//! tests.

use admin_bridge::bridge::{CloseStatus, ConnectionBridge};
use admin_bridge::envelope::{encode_request, Frame};
use admin_bridge::payload::Payload;
use admin_bridge::service::{connect_failure, resolve_outcome, FailureCause, ServiceError};

/// The client side of one call, as the service drives it: the request
/// goes out once the connection opens; every event feeds the bridge.
struct Caller {
    out: ws::Sender,
    bridge: ConnectionBridge,
    request: Option<Vec<u8>>,
    res_tx: crossbeam::channel::Sender<admin_bridge::bridge::CallOutcome>,
}

impl Caller {
    fn dispatch(
        &mut self,
        step: (Option<admin_bridge::bridge::CallOutcome>, Option<CloseStatus>),
    ) -> ws::Result<()> {
        if let Some(o) = step.0 {
            let _ = self.res_tx.send(o);
        }
        match step.1 {
            Some(CloseStatus::Normal) => self.out.close(ws::CloseCode::Normal),
            Some(CloseStatus::Error) => self.out.close(ws::CloseCode::Error),
            None => Ok(()),
        }
    }
}

impl ws::Handler for Caller {
    fn on_open(&mut self, _shake: ws::Handshake) -> ws::Result<()> {
        let request = self.request.take().unwrap();
        let send_result = self.out.send(request).map_err(|e| e.to_string());
        let step = self.bridge.on_send_result(send_result);
        self.dispatch(step)
    }

    fn on_message(&mut self, message: ws::Message) -> ws::Result<()> {
        let frame = match message {
            ws::Message::Binary(b) => Frame::Binary(b),
            ws::Message::Text(t) => Frame::Text(t.into_bytes()),
        };
        let step = self.bridge.on_message(frame);
        self.dispatch(step)
    }
}

/// One synchronous call, driven exactly as the service drives it: one
/// connection, one send, one received message, one outcome.
fn call(port: u16, payload: &Payload) -> Result<Payload, ServiceError> {
    let message_buf = encode_request(payload).expect("payload outside the supported model");
    let (res_tx, res_rx) = crossbeam::channel::bounded(1);
    let mut capture = Some((res_tx, message_buf));
    let connected = ws::connect(format!("ws://127.0.0.1:{}", port), move |out| {
        let (res_tx, message_buf) = capture.take().unwrap();
        Caller { out, bridge: ConnectionBridge::new(), request: Some(message_buf), res_tx }
    });
    if let Err(e) = connected {
        return Err(connect_failure(e.to_string()));
    }
    match res_rx.recv() {
        Ok(outcome) => resolve_outcome(outcome),
        Err(_) => Err(connect_failure("connection ended before any outcome".to_string())),
    }
}

#[test]
fn no_listener_reports_connect_failure() {
    let r = call(49177, &Payload::Nil);
    match r {
        Err(ServiceError { cause: FailureCause::ConnectFailure(_) }) => {},
        other => panic!("expected a connect failure, got {:?}", other),
    }
}
