//! A two-player Mancala (Kalah-style) rules engine together with the
//! message protocol used to carry board snapshots and move requests
//! between two parties over a byte stream.
//!
//! The crate is split into:
//! - [`engine`]: the board array and the single-move state machine
//!   (sowing, capture, extra turns, end-of-game sweep);
//! - [`message`]: the tagged message envelope built around board
//!   snapshots and move requests;
//! - [`wire`]: a newline-delimited byte encoding of messages, with a
//!   proved encode/decode round trip;
//! - [`session`]: the connection-endpoint descriptions used by the
//!   surrounding transport code.

pub mod chars;
pub mod engine;
pub mod message;
pub mod session;
pub mod wire;
