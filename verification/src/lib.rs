//! A synchronous call bridge for a conductor's administrative control socket.
//!
//! The library holds the verified core of the bridge: the wire-envelope
//! codec (a MessagePack-style binary encoding of structured values), the
//! per-call connection state machine that turns asynchronous socket events
//! into exactly one terminal outcome, and the normalization of every
//! failure into a single service error shape.  Opening the socket, sending
//! bytes and receiving frames are left to an unverified driver around the
//! library.

pub mod payload;
pub mod codec;
pub mod envelope;
pub mod bridge;
pub mod service;
