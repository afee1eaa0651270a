//! Client-side transport and handshake layer for a JSON-RPC style
//! language-server protocol: length-delimited framing of messages over a
//! byte stream, correlation of responses to outstanding requests by
//! identifier, and the initialize/initialized handshake state machine.

pub mod codec;
pub mod errors;
pub mod conn;
pub mod handshake;
pub mod msg;
pub mod pending;
