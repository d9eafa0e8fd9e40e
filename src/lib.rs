//! A client-side WebSocket (RFC 6455) frame codec and message engine.
//!
//! The library holds the logic that turns raw bytes into frames and frames
//! into messages: the wire format (`frame`), the incremental read buffer
//! (`client`) and the reassembly and closing-handshake state machine
//! (`session`). Sockets, TLS and the HTTP upgrade stay with the caller, which
//! hands bytes in and carries out the actions that come back.

pub mod client;
pub mod frame;
pub mod session;

pub use client::{Client, ClientWriter, FrameReader, FrameSpan, UnexpectedEof};
pub use frame::{ContentLength, Fragment, Frame, Opcode, WsParsingError};
pub use session::{CloseState, DataKind, Message, Outcome, Session};
